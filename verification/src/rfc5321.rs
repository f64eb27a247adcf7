//! Parsers for SMTP command arguments: reverse and forward paths, domains,
//! address literals and ESMTP parameter lists.
//!
//! SMTP syntax allows no folding whitespace and no comments; the grammar
//! here is strict byte-level recursive descent.

use vstd::prelude::*;
use vstd::string::StringSliceAdditionalSpecFns;

use crate::behaviour::UTF8Policy;
use crate::bytescan::{lemma_scan_bounds, lemma_scan_elems, lemma_scan_is, scan};
use crate::ip::spec_ip_literal;
use crate::rfc5234::is_atext_byte;
use crate::types::{
    AddressLiteral, DotAtom, Domain, DomainPart, LocalPart, Mailbox, Path, QuotedString,
    SpecAddressLiteral, SpecDomainPart, SpecLocalPart, SpecMailbox, SpecPath,
};
use crate::util::{
    decode_octets, is_atext_ext, spec_ci_match, spec_decode_octets, spec_tag_match, tag, tag_ci,
    ParseError, ParseResult,
};

verus! {

/// The atom character class under a policy: ASCII atom bytes, plus all
/// octets above 127 under the internationalized policy.
pub open spec fn atext_cls(intl: bool) -> spec_fn(u8) -> bool {
    |b: u8| is_atext_byte(b) || (intl && b >= 128)
}

/// Scan an atom character run starting at `pos`.
fn scan_atext(input: &[u8], pos: usize, intl: bool) -> (r: usize)
    requires
        pos <= input.len(),
    ensures
        r == scan(input@, pos as int, atext_cls(intl)),
        pos <= r <= input.len(),
{
    let mut j: usize = pos;
    while j < input.len() && is_atext_ext(input[j], intl)
        invariant
            pos <= j <= input.len(),
            forall|k: int| pos <= k < j ==> atext_cls(intl)(input@[k]),
        decreases input.len() - j,
    {
        j = j + 1;
    }
    proof {
        lemma_scan_is(input@, pos as int, j as int, atext_cls(intl));
    }
    j
}

/// End of the dot-string continuation: starting after an atom at `j`,
/// repeatedly consume a dot followed by a non-empty atom run.
pub open spec fn spec_dot_more(s: Seq<u8>, j: int, intl: bool) -> int
    decreases s.len() - j when 0 <= j <= s.len()
{
    if j < s.len() && s[j] == 46 {
        let j2 = scan(s, j + 1, atext_cls(intl));
        if j + 1 < j2 <= s.len() {
            spec_dot_more(s, j2, intl)
        } else {
            j
        }
    } else {
        j
    }
}

/// End position of a dot-string at `i`: one or more atoms joined by single
/// dots. `None` when no atom starts at `i`.
pub open spec fn spec_dot_string_end(s: Seq<u8>, i: int, intl: bool) -> Option<int> {
    let j = scan(s, i, atext_cls(intl));
    if i < j <= s.len() {
        Some(spec_dot_more(s, j, intl))
    } else {
        None
    }
}

/// A dot-string at `i`: end position and decoded text.
pub open spec fn spec_dot_string(s: Seq<u8>, i: int, intl: bool) -> Option<(int, Seq<char>)> {
    match spec_dot_string_end(s, i, intl) {
        Some(j) => Some((j, spec_decode_octets(intl, s.subrange(i, j)))),
        None => None,
    }
}

/// Parse a dot-string at `pos`, yielding the position after it and its
/// decoded text.
pub fn dot_string(input: &[u8], pos: usize, intl: bool) -> (r: Option<(usize, String)>)
    requires
        pos <= input.len(),
    ensures
        match r {
            Some((np, t)) => spec_dot_string(input@, pos as int, intl) == Some((
                np as int,
                t@,
            )) && pos < np <= input.len(),
            None => spec_dot_string(input@, pos as int, intl) is None,
        },
{
    let first = scan_atext(input, pos, intl);
    if first == pos {
        return None;
    }
    let mut j: usize = first;
    loop
        invariant
            pos < first <= j <= input.len(),
            spec_dot_more(input@, first as int, intl) == spec_dot_more(input@, j as int, intl),
        ensures
            pos < j <= input.len(),
            spec_dot_more(input@, first as int, intl) == j as int,
        decreases input.len() - j,
    {
        if j < input.len() && input[j] == 46 {
            let j2 = scan_atext(input, j + 1, intl);
            if j + 1 < j2 {
                j = j2;
                continue ;
            }
            proof {
                assert(spec_dot_more(input@, j as int, intl) == j as int);
            }
            break ;
        }
        proof {
            assert(spec_dot_more(input@, j as int, intl) == j as int);
        }
        break ;
    }
    let text = decode_octets(intl, vstd::slice::slice_subrange(input, pos, j));
    Some((j, text))
}

/// SMTP quoted-string text byte: printable except backslash and the double
/// quote, plus all octets above 127 under the internationalized policy.
pub open spec fn qtext_smtp_cls(intl: bool) -> spec_fn(u8) -> bool {
    |b: u8| b == 32 || b == 33 || (35 <= b <= 91) || (93 <= b <= 126) || (intl && b >= 128)
}

/// Decide membership in the SMTP quoted-string text class.
fn is_qtext_smtp(b: u8, intl: bool) -> (r: bool)
    ensures
        r == qtext_smtp_cls(intl)(b),
{
    b == 32 || b == 33 || (35 <= b && b <= 91) || (93 <= b && b <= 126) || (intl && b >= 128)
}

/// Unescaped content bytes of an SMTP quoted string starting at `i`: text
/// runs and backslash-escaped printable characters, up to but not including
/// the closing quote. Yields the position of the first byte that belongs to
/// neither form.
pub open spec fn spec_qs_raw(s: Seq<u8>, i: int, intl: bool) -> (int, Seq<u8>)
    decreases s.len() - i when 0 <= i <= s.len()
{
    if i < s.len() && qtext_smtp_cls(intl)(s[i]) {
        let j = scan(s, i, qtext_smtp_cls(intl));
        if i < j <= s.len() {
            let (end, rest) = spec_qs_raw(s, j, intl);
            (end, s.subrange(i, j) + rest)
        } else {
            (i, Seq::empty())
        }
    } else if i + 1 < s.len() && s[i] == 92 && 32 <= s[i + 1] <= 126 {
        let (end, rest) = spec_qs_raw(s, i + 2, intl);
        (end, seq![s[i + 1]] + rest)
    } else {
        (i, Seq::empty())
    }
}

/// An SMTP quoted string at `i`: double quote, content, double quote.
/// Yields the position after the closing quote and the unescaped content
/// bytes.
pub open spec fn spec_quoted_string_smtp(s: Seq<u8>, i: int, intl: bool) -> Option<(
    int,
    Seq<char>,
)> {
    if i < s.len() && s[i] == 34 {
        let (j, raw) = spec_qs_raw(s, i + 1, intl);
        if j < s.len() && s[j] == 34 {
            Some((j + 1, spec_decode_octets(intl, raw)))
        } else {
            None
        }
    } else {
        None
    }
}

/// Parse an SMTP quoted string at `pos`, yielding the position after it and
/// the unescaped, decoded content.
pub fn quoted_string_smtp(input: &[u8], pos: usize, intl: bool) -> (r: Option<(usize, String)>)
    requires
        pos <= input.len(),
    ensures
        match r {
            Some((np, t)) => spec_quoted_string_smtp(input@, pos as int, intl) == Some((
                np as int,
                t@,
            )) && pos < np <= input.len(),
            None => spec_quoted_string_smtp(input@, pos as int, intl) is None,
        },
{
    if !(pos < input.len() && input[pos] == 34) {
        return None;
    }
    let mut raw: Vec<u8> = Vec::new();
    let mut j: usize = pos + 1;
    loop
        invariant
            pos + 1 <= j <= input.len(),
            spec_qs_raw(input@, pos + 1, intl).0 == spec_qs_raw(input@, j as int, intl).0,
            spec_qs_raw(input@, pos + 1, intl).1 == raw@ + spec_qs_raw(input@, j as int, intl).1,
        ensures
            pos + 1 <= j <= input.len(),
            spec_qs_raw(input@, pos + 1, intl).0 == j as int,
            spec_qs_raw(input@, pos + 1, intl).1 == raw@,
        decreases input.len() - j,
    {
        if j < input.len() && is_qtext_smtp(input[j], intl) {
            let j2 = scan_qtext_smtp(input, j, intl);
            proof {
                crate::bytescan::lemma_scan_nonempty(input@, j as int, qtext_smtp_cls(intl));
            }
            let ghost raw0 = raw@;
            let mut k: usize = j;
            while k < j2
                invariant
                    j <= k <= j2 <= input.len(),
                    raw@ == raw0 + input@.subrange(j as int, k as int),
                decreases j2 - k,
            {
                raw.push(input[k]);
                k = k + 1;
                proof {
                    assert(raw@ =~= raw0 + input@.subrange(j as int, k as int));
                }
            }
            proof {
                assert(spec_qs_raw(input@, j as int, intl).1 == input@.subrange(
                    j as int,
                    j2 as int,
                ) + spec_qs_raw(input@, j2 as int, intl).1);
                assert(raw0 + input@.subrange(j as int, j2 as int) + spec_qs_raw(
                    input@,
                    j2 as int,
                    intl,
                ).1 =~= raw0 + spec_qs_raw(input@, j as int, intl).1);
            }
            j = j2;
        } else if j < input.len() && input[j] == 92 && j + 1 < input.len() && 32 <= input[j + 1]
            && input[j + 1] <= 126 {
            proof {
                assert(!qtext_smtp_cls(intl)(input@[j as int]));
                assert(spec_qs_raw(input@, j as int, intl).1 == seq![input@[j + 1]] + spec_qs_raw(
                    input@,
                    j + 2,
                    intl,
                ).1);
                assert(raw@ + seq![input@[j + 1]] + spec_qs_raw(input@, j + 2, intl).1 =~= raw@
                    + spec_qs_raw(input@, j as int, intl).1);
            }
            raw.push(input[j + 1]);
            j = j + 2;
        } else {
            proof {
                assert(spec_qs_raw(input@, j as int, intl).0 == j as int);
                assert(spec_qs_raw(input@, j as int, intl).1 =~= Seq::<u8>::empty());
                assert(raw@ + Seq::<u8>::empty() =~= raw@);
            }
            break ;
        }
    }
    if j < input.len() && input[j] == 34 {
        let text = decode_octets(intl, raw.as_slice());
        Some((j + 1, text))
    } else {
        None
    }
}

/// Scan an SMTP quoted-string text run starting at `pos`.
fn scan_qtext_smtp(input: &[u8], pos: usize, intl: bool) -> (r: usize)
    requires
        pos <= input.len(),
    ensures
        r == scan(input@, pos as int, qtext_smtp_cls(intl)),
        pos <= r <= input.len(),
{
    let mut j: usize = pos;
    while j < input.len() && is_qtext_smtp(input[j], intl)
        invariant
            pos <= j <= input.len(),
            forall|k: int| pos <= k < j ==> qtext_smtp_cls(intl)(input@[k]),
        decreases input.len() - j,
    {
        j = j + 1;
    }
    proof {
        lemma_scan_is(input@, pos as int, j as int, qtext_smtp_cls(intl));
    }
    j
}

/// Specification-level ESMTP parameter.
pub struct SpecParam {
    /// The parameter name, as given.
    pub name: Seq<char>,
    /// The parameter value, when one was given.
    pub value: Option<Seq<char>>,
}

/// One ESMTP parameter: a name and an optional value.
#[derive(Clone, Debug, PartialEq)]
pub struct Param(pub String, pub Option<String>);

impl View for Param {
    type V = SpecParam;

    open spec fn view(&self) -> SpecParam {
        SpecParam {
            name: self.0@,
            value: match &self.1 {
                Some(v) => Some(v@),
                None => None,
            },
        }
    }
}

/// Specification-level reverse path.
pub enum SpecReversePath {
    /// A full path.
    Path(SpecPath),
    /// The empty-brackets null sender.
    Null,
}

/// The sender argument of a MAIL command.
#[derive(Clone, Debug, PartialEq)]
pub enum ReversePath {
    /// A full path.
    Path(Path),
    /// The empty-brackets null sender.
    Null,
}

impl View for ReversePath {
    type V = SpecReversePath;

    open spec fn view(&self) -> SpecReversePath {
        match self {
            ReversePath::Path(p) => SpecReversePath::Path(p@),
            ReversePath::Null => SpecReversePath::Null,
        }
    }
}

/// Specification-level forward path.
pub enum SpecForwardPath {
    /// A full path.
    Path(SpecPath),
    /// The special postmaster recipient, with an optional domain.
    PostMaster(Option<Seq<char>>),
}

/// The recipient argument of a RCPT command.
#[derive(Clone, Debug, PartialEq)]
pub enum ForwardPath {
    /// A full path.
    Path(Path),
    /// The special postmaster recipient, with an optional domain.
    PostMaster(Option<Domain>),
}

impl View for ForwardPath {
    type V = SpecForwardPath;

    open spec fn view(&self) -> SpecForwardPath {
        match self {
            ForwardPath::Path(p) => SpecForwardPath::Path(p@),
            ForwardPath::PostMaster(d) => SpecForwardPath::PostMaster(
                match d {
                    Some(d) => Some(d@),
                    None => None,
                },
            ),
        }
    }
}

/// Specification-level SMTP string.
pub enum SpecSMTPString {
    /// A bare atom.
    Atom(Seq<char>),
    /// A quoted string.
    Quoted(Seq<char>),
}

/// An SMTP `String`: an atom or a quoted string.
#[derive(Clone, Debug, PartialEq)]
pub enum SMTPString {
    /// A bare atom.
    Atom(String),
    /// A quoted string.
    Quoted(QuotedString),
}

impl View for SMTPString {
    type V = SpecSMTPString;

    open spec fn view(&self) -> SpecSMTPString {
        match self {
            SMTPString::Atom(t) => SpecSMTPString::Atom(t@),
            SMTPString::Quoted(q) => SpecSMTPString::Quoted(q@),
        }
    }
}

/// Domain literal content byte: printable except the square brackets and
/// the backslash.
pub open spec fn dcontent_cls() -> spec_fn(u8) -> bool {
    |b: u8| (33 <= b <= 90) || (94 <= b <= 126)
}

/// An address literal at `i`: a bracketed, non-empty run of content bytes,
/// upgraded to an IP address when its text parses as one.
pub open spec fn spec_address_literal(s: Seq<u8>, i: int) -> Option<(int, SpecAddressLiteral)> {
    if i < s.len() && s[i] == 91 {
        let j = scan(s, i + 1, dcontent_cls());
        if i + 1 < j && j < s.len() && s[j] == 93 {
            let content = s.subrange(i + 1, j);
            match spec_ip_literal(content) {
                Some(ip) => Some((j + 1, SpecAddressLiteral::IP(ip))),
                None => Some(
                    (j + 1, SpecAddressLiteral::FreeForm(crate::util::spec_ascii_chars(content))),
                ),
            }
        } else {
            None
        }
    } else {
        None
    }
}

/// Parse an address literal at `pos`.
pub fn address_literal(input: &[u8], pos: usize) -> (r: Option<(usize, AddressLiteral)>)
    requires
        pos <= input.len(),
    ensures
        match r {
            Some((np, al)) => spec_address_literal(input@, pos as int) == Some((np as int, al@))
                && pos < np <= input.len(),
            None => spec_address_literal(input@, pos as int) is None,
        },
{
    if !(pos < input.len() && input[pos] == 91) {
        return None;
    }
    let mut j: usize = pos + 1;
    while j < input.len() && is_dcontent(input[j])
        invariant
            pos + 1 <= j <= input.len(),
            forall|k: int| pos + 1 <= k < j ==> dcontent_cls()(input@[k]),
        decreases input.len() - j,
    {
        j = j + 1;
    }
    proof {
        lemma_scan_is(input@, pos + 1, j as int, dcontent_cls());
    }
    if !(pos + 1 < j && j < input.len() && input[j] == 93) {
        return None;
    }
    let content = vstd::slice::slice_subrange(input, pos + 1, j);
    match crate::ip::ip_literal(content) {
        Some(ip) => Some((j + 1, AddressLiteral::IP(ip))),
        None => {
            let text = crate::util::ascii_to_string(content);
            proof {
                assert(text@ =~= crate::util::spec_ascii_chars(content@));
            }
            Some((j + 1, AddressLiteral::FreeForm(text)))
        },
    }
}

/// Decide membership in the domain literal content class.
fn is_dcontent(b: u8) -> (r: bool)
    ensures
        r == dcontent_cls()(b),
{
    (33 <= b && b <= 90) || (94 <= b && b <= 126)
}

/// A domain part at `i`: a dot-string domain name, or an address literal.
pub open spec fn spec_domain_part(s: Seq<u8>, i: int, intl: bool) -> Option<(int, SpecDomainPart)> {
    match spec_dot_string(s, i, intl) {
        Some((j, t)) => Some((j, SpecDomainPart::Domain(t))),
        None => match spec_address_literal(s, i) {
            Some((j, al)) => Some((j, SpecDomainPart::Address(al))),
            None => None,
        },
    }
}

/// Parse a domain part at `pos`.
pub fn domain_part(input: &[u8], pos: usize, intl: bool) -> (r: Option<(usize, DomainPart)>)
    requires
        pos <= input.len(),
    ensures
        match r {
            Some((np, dp)) => spec_domain_part(input@, pos as int, intl) == Some((
                np as int,
                dp@,
            )) && pos < np <= input.len(),
            None => spec_domain_part(input@, pos as int, intl) is None,
        },
{
    match dot_string(input, pos, intl) {
        Some((j, t)) => Some((j, DomainPart::Domain(Domain(t)))),
        None => match address_literal(input, pos) {
            Some((j, al)) => Some((j, DomainPart::Address(al))),
            None => None,
        },
    }
}

/// A local part at `i`: a dot-string, or an SMTP quoted string.
pub open spec fn spec_local_part(s: Seq<u8>, i: int, intl: bool) -> Option<(int, SpecLocalPart)> {
    match spec_dot_string(s, i, intl) {
        Some((j, t)) => Some((j, SpecLocalPart::DotAtom(t))),
        None => match spec_quoted_string_smtp(s, i, intl) {
            Some((j, t)) => Some((j, SpecLocalPart::Quoted(t))),
            None => None,
        },
    }
}

/// Parse a local part at `pos`.
pub fn local_part(input: &[u8], pos: usize, intl: bool) -> (r: Option<(usize, LocalPart)>)
    requires
        pos <= input.len(),
    ensures
        match r {
            Some((np, lp)) => spec_local_part(input@, pos as int, intl) == Some((
                np as int,
                lp@,
            )) && pos < np <= input.len(),
            None => spec_local_part(input@, pos as int, intl) is None,
        },
{
    match dot_string(input, pos, intl) {
        Some((j, t)) => Some((j, LocalPart::DotAtom(DotAtom(t)))),
        None => match quoted_string_smtp(input, pos, intl) {
            Some((j, t)) => Some((j, LocalPart::Quoted(QuotedString(t)))),
            None => None,
        },
    }
}

/// An SMTP mailbox at `i`: local part, `@`, domain part.
pub open spec fn spec_mailbox(s: Seq<u8>, i: int, intl: bool) -> Option<(int, SpecMailbox)> {
    match spec_local_part(s, i, intl) {
        Some((j, lp)) => if j < s.len() && s[j] == 64 {
            match spec_domain_part(s, j + 1, intl) {
                Some((j2, dp)) => Some((j2, SpecMailbox { local: lp, domain: dp })),
                None => None,
            }
        } else {
            None
        },
        None => None,
    }
}

/// Parse an SMTP mailbox at `pos`: `local-part@domain-part`.
pub fn mailbox_at(input: &[u8], pos: usize, intl: bool) -> (r: Option<(usize, Mailbox)>)
    requires
        pos <= input.len(),
    ensures
        match r {
            Some((np, mb)) => spec_mailbox(input@, pos as int, intl) == Some((np as int, mb@))
                && pos < np <= input.len(),
            None => spec_mailbox(input@, pos as int, intl) is None,
        },
{
    match local_part(input, pos, intl) {
        Some((j, lp)) => {
            if j < input.len() && input[j] == 64 {
                match domain_part(input, j + 1, intl) {
                    Some((j2, dp)) => Some((j2, Mailbox(lp, dp))),
                    None => None,
                }
            } else {
                None
            }
        },
        None => None,
    }
}

/// Parse a bare SMTP mailbox, returning the remainder and the value.
pub fn mailbox<P: UTF8Policy>(input: &[u8]) -> (r: ParseResult<Mailbox>)
    ensures
        match r {
            Ok((rem, mb)) => match spec_mailbox(input@, 0, P::intl()) {
                Some((np, smb)) => mb@ == smb && rem@ == input@.subrange(np, input@.len() as int),
                None => false,
            },
            Err(e) => e == ParseError::GrammarMismatch && spec_mailbox(
                input@,
                0,
                P::intl(),
            ) is None,
        },
{
    match mailbox_at(input, 0, P::is_intl()) {
        Some((np, mb)) => Ok((vstd::slice::slice_subrange(input, np, input.len()), mb)),
        None => Err(ParseError::GrammarMismatch),
    }
}

/// An at-domain (`@domain`) source route element at `i`.
pub open spec fn spec_at_domain(s: Seq<u8>, i: int, intl: bool) -> Option<(int, Seq<char>)> {
    if i < s.len() && s[i] == 64 {
        spec_dot_string(s, i + 1, intl)
    } else {
        None
    }
}

/// Further source route elements: a comma followed by an at-domain, zero or
/// more times. Yields the end position and the domains.
pub open spec fn spec_adl_more(s: Seq<u8>, j: int, intl: bool) -> (int, Seq<Seq<char>>)
    decreases s.len() - j when 0 <= j <= s.len()
{
    if j < s.len() && s[j] == 44 {
        match spec_at_domain(s, j + 1, intl) {
            Some((j2, d)) => if j + 1 < j2 <= s.len() {
                let (e, rest) = spec_adl_more(s, j2, intl);
                (e, seq![d] + rest)
            } else {
                (j, Seq::empty())
            },
            None => (j, Seq::empty()),
        }
    } else {
        (j, Seq::empty())
    }
}

/// A path at `i`: angle brackets around an optional source route and a
/// mailbox.
pub open spec fn spec_path(s: Seq<u8>, i: int, intl: bool) -> Option<(int, SpecPath)> {
    if i < s.len() && s[i] == 60 {
        match spec_at_domain(s, i + 1, intl) {
            Some((j, d)) => {
                let (j2, more) = spec_adl_more(s, j, intl);
                if j2 < s.len() && s[j2] == 58 {
                    match spec_mailbox(s, j2 + 1, intl) {
                        Some((j3, mb)) => if j3 < s.len() && s[j3] == 62 {
                            Some((j3 + 1, SpecPath { mailbox: mb, route: seq![d] + more }))
                        } else {
                            None
                        },
                        None => None,
                    }
                } else {
                    None
                }
            },
            None => match spec_mailbox(s, i + 1, intl) {
                Some((j3, mb)) => if j3 < s.len() && s[j3] == 62 {
                    Some((j3 + 1, SpecPath { mailbox: mb, route: Seq::empty() }))
                } else {
                    None
                },
                None => None,
            },
        }
    } else {
        None
    }
}

/// Parse an at-domain at `pos`.
fn at_domain(input: &[u8], pos: usize, intl: bool) -> (r: Option<(usize, Domain)>)
    requires
        pos <= input.len(),
    ensures
        match r {
            Some((np, d)) => spec_at_domain(input@, pos as int, intl) == Some((np as int, d@))
                && pos < np <= input.len(),
            None => spec_at_domain(input@, pos as int, intl) is None,
        },
{
    if pos < input.len() && input[pos] == 64 {
        match dot_string(input, pos + 1, intl) {
            Some((j, t)) => Some((j, Domain(t))),
            None => None,
        }
    } else {
        None
    }
}

/// Parse a path at `pos`.
pub fn path_at(input: &[u8], pos: usize, intl: bool) -> (r: Option<(usize, Path)>)
    requires
        pos <= input.len(),
    ensures
        match r {
            Some((np, p)) => spec_path(input@, pos as int, intl) == Some((np as int, p@)) && pos
                < np <= input.len(),
            None => spec_path(input@, pos as int, intl) is None,
        },
{
    if !(pos < input.len() && input[pos] == 60) {
        return None;
    }
    match at_domain(input, pos + 1, intl) {
        Some((j0, d0)) => {
            let mut route: Vec<Domain> = Vec::new();
            route.push(d0);
            let mut j: usize = j0;
            proof {
                assert(route@.map_values(|dd: Domain| dd@) =~= seq![d0@]);
            }
            loop
                invariant
                    pos + 1 < j <= input.len(),
                    route@.len() >= 1,
                    seq![d0@] + spec_adl_more(input@, j0 as int, intl).1 =~= route@.map_values(
                        |dd: Domain| dd@,
                    ) + spec_adl_more(input@, j as int, intl).1,
                    spec_adl_more(input@, j0 as int, intl).0 == spec_adl_more(
                        input@,
                        j as int,
                        intl,
                    ).0,
                ensures
                    pos + 1 < j <= input.len(),
                    spec_adl_more(input@, j0 as int, intl).0 == j as int,
                    seq![d0@] + spec_adl_more(input@, j0 as int, intl).1 =~= route@.map_values(
                        |dd: Domain| dd@,
                    ),
                decreases input.len() - j,
            {
                if j < input.len() && input[j] == 44 {
                    match at_domain(input, j + 1, intl) {
                        Some((j2, d)) => {
                            proof {
                                let prev = route@.map_values(|dd: Domain| dd@);
                                assert(spec_adl_more(input@, j as int, intl).1 == seq![d@]
                                    + spec_adl_more(input@, j2 as int, intl).1);
                                assert(prev + (seq![d@] + spec_adl_more(input@, j2 as int, intl).1)
                                    =~= (prev + seq![d@]) + spec_adl_more(
                                    input@,
                                    j2 as int,
                                    intl,
                                ).1);
                                assert(route@.push(d).map_values(|dd: Domain| dd@) =~= prev + seq![
                                    d@,
                                ]);
                            }
                            route.push(d);
                            j = j2;
                        },
                        None => {
                            proof {
                                assert(spec_adl_more(input@, j as int, intl).0 == j as int);
                                assert(spec_adl_more(input@, j as int, intl).1
                                    =~= Seq::<Seq<char>>::empty());
                                let rv = route@.map_values(|dd: Domain| dd@);
                                assert(rv + Seq::<Seq<char>>::empty() =~= rv);
                            }
                            break ;
                        },
                    }
                } else {
                    proof {
                        assert(spec_adl_more(input@, j as int, intl).0 == j as int);
                        assert(spec_adl_more(input@, j as int, intl).1
                            =~= Seq::<Seq<char>>::empty());
                        let rv = route@.map_values(|dd: Domain| dd@);
                        assert(rv + Seq::<Seq<char>>::empty() =~= rv);
                    }
                    break ;
                }
            }
            if !(j < input.len() && input[j] == 58) {
                return None;
            }
            match mailbox_at(input, j + 1, intl) {
                Some((j3, mb)) => {
                    if j3 < input.len() && input[j3] == 62 {
                        Some((j3 + 1, Path(mb, route)))
                    } else {
                        None
                    }
                },
                None => None,
            }
        },
        None => {
            match mailbox_at(input, pos + 1, intl) {
                Some((j3, mb)) => {
                    if j3 < input.len() && input[j3] == 62 {
                        let route: Vec<Domain> = Vec::new();
                        proof {
                            assert(route@.map_values(|dd: Domain| dd@)
                                =~= Seq::<Seq<char>>::empty());
                        }
                        Some((j3 + 1, Path(mb, route)))
                    } else {
                        None
                    }
                },
                None => None,
            }
        },
    }
}

/// The bytes of `<>`, the null reverse path.
pub open spec fn kw_null_path() -> Seq<u8> {
    seq![60u8, 62u8]
}

/// The bytes of `MAIL FROM:`.
pub open spec fn kw_mail_from() -> Seq<u8> {
    seq![77u8, 65u8, 73u8, 76u8, 32u8, 70u8, 82u8, 79u8, 77u8, 58u8]
}

/// The bytes of `RCPT TO:`.
pub open spec fn kw_rcpt_to() -> Seq<u8> {
    seq![82u8, 67u8, 80u8, 84u8, 32u8, 84u8, 79u8, 58u8]
}

/// The bytes of `<postmaster>`.
pub open spec fn kw_postmaster() -> Seq<u8> {
    seq![60u8, 112u8, 111u8, 115u8, 116u8, 109u8, 97u8, 115u8, 116u8, 101u8, 114u8, 62u8]
}

/// The bytes of `<postmaster@`.
pub open spec fn kw_postmaster_at() -> Seq<u8> {
    seq![60u8, 112u8, 111u8, 115u8, 116u8, 109u8, 97u8, 115u8, 116u8, 101u8, 114u8, 64u8]
}

/// A reverse path at `i`: the literal `<>` null sender, or a path.
pub open spec fn spec_reverse_path(s: Seq<u8>, i: int, intl: bool) -> Option<(
    int,
    SpecReversePath,
)> {
    if spec_tag_match(s, i, kw_null_path()) {
        Some((i + 2, SpecReversePath::Null))
    } else {
        match spec_path(s, i, intl) {
            Some((j, p)) => Some((j, SpecReversePath::Path(p))),
            None => None,
        }
    }
}

/// Parse a reverse path at `pos`.
fn reverse_path_at(input: &[u8], pos: usize, intl: bool) -> (r: Option<(usize, ReversePath)>)
    requires
        pos <= input.len(),
    ensures
        match r {
            Some((np, rp)) => spec_reverse_path(input@, pos as int, intl) == Some((
                np as int,
                rp@,
            )) && pos < np <= input.len(),
            None => spec_reverse_path(input@, pos as int, intl) is None,
        },
{
    let null_tag: [u8; 2] = [60u8, 62u8];
    proof {
        assert(null_tag@ =~= kw_null_path());
    }
    match tag(input, pos, null_tag.as_slice()) {
        Some(np) => Some((np, ReversePath::Null)),
        None => match path_at(input, pos, intl) {
            Some((j, p)) => Some((j, ReversePath::Path(p))),
            None => None,
        },
    }
}

/// A forward path at `i`: the case-insensitive postmaster special cases, or
/// a path.
pub open spec fn spec_forward_path(s: Seq<u8>, i: int, intl: bool) -> Option<(
    int,
    SpecForwardPath,
)> {
    if spec_ci_match(s, i, kw_postmaster()) {
        Some((i + 12, SpecForwardPath::PostMaster(None)))
    } else if spec_ci_match(s, i, kw_postmaster_at()) {
        match spec_dot_string(s, i + 12, intl) {
            Some((j, d)) => if j < s.len() && s[j] == 62 {
                Some((j + 1, SpecForwardPath::PostMaster(Some(d))))
            } else {
                None
            },
            None => None,
        }
    } else {
        match spec_path(s, i, intl) {
            Some((j, p)) => Some((j, SpecForwardPath::Path(p))),
            None => None,
        }
    }
}

/// Parse a forward path at `pos`.
fn forward_path_at(input: &[u8], pos: usize, intl: bool) -> (r: Option<(usize, ForwardPath)>)
    requires
        pos <= input.len(),
    ensures
        match r {
            Some((np, fp)) => spec_forward_path(input@, pos as int, intl) == Some((
                np as int,
                fp@,
            )) && pos < np <= input.len(),
            None => spec_forward_path(input@, pos as int, intl) is None,
        },
{
    let pm_tag: [u8; 12] = [60u8, 112u8, 111u8, 115u8, 116u8, 109u8, 97u8, 115u8, 116u8, 101u8,
        114u8, 62u8];
    let pm_at_tag: [u8; 12] = [60u8, 112u8, 111u8, 115u8, 116u8, 109u8, 97u8, 115u8, 116u8, 101u8,
        114u8, 64u8];
    proof {
        assert(pm_tag@ =~= kw_postmaster());
        assert(pm_at_tag@ =~= kw_postmaster_at());
    }
    if let Some(np) = tag_ci(input, pos, pm_tag.as_slice()) {
        return Some((np, ForwardPath::PostMaster(None)));
    }
    if let Some(np) = tag_ci(input, pos, pm_at_tag.as_slice()) {
        return match dot_string(input, np, intl) {
            Some((j, d)) => {
                if j < input.len() && input[j] == 62 {
                    Some((j + 1, ForwardPath::PostMaster(Some(Domain(d)))))
                } else {
                    None
                }
            },
            None => None,
        };
    }
    match path_at(input, pos, intl) {
        Some((j, p)) => Some((j, ForwardPath::Path(p))),
        None => None,
    }
}

/// ESMTP keyword leading byte: an ASCII letter or digit.
pub open spec fn alnum_cls() -> spec_fn(u8) -> bool {
    |b: u8| (48 <= b <= 57) || (65 <= b <= 90) || (97 <= b <= 122)
}

/// ESMTP keyword continuation byte: a letter, digit or hyphen.
pub open spec fn kwrest_cls() -> spec_fn(u8) -> bool {
    |b: u8| (48 <= b <= 57) || (65 <= b <= 90) || (97 <= b <= 122) || b == 45
}

/// ESMTP value byte: printable except the equals sign.
pub open spec fn esmtp_value_cls() -> spec_fn(u8) -> bool {
    |b: u8| (33 <= b <= 60) || (62 <= b <= 126)
}

/// An ESMTP keyword at `i`: a letter or digit, then letters, digits or
/// hyphens.
pub open spec fn spec_esmtp_keyword(s: Seq<u8>, i: int) -> Option<(int, Seq<char>)> {
    if i < s.len() && alnum_cls()(s[i]) {
        let j = scan(s, i + 1, kwrest_cls());
        if i < j <= s.len() {
            Some((j, crate::util::spec_ascii_chars(s.subrange(i, j))))
        } else {
            None
        }
    } else {
        None
    }
}

/// An ESMTP value at `i`: one or more printable bytes other than `=`.
pub open spec fn spec_esmtp_value(s: Seq<u8>, i: int) -> Option<(int, Seq<char>)> {
    let j = scan(s, i, esmtp_value_cls());
    if i < j <= s.len() {
        Some((j, crate::util::spec_ascii_chars(s.subrange(i, j))))
    } else {
        None
    }
}

/// An ESMTP parameter at `i`: a keyword, optionally followed by `=` and a
/// value.
pub open spec fn spec_esmtp_param(s: Seq<u8>, i: int) -> Option<(int, SpecParam)> {
    match spec_esmtp_keyword(s, i) {
        Some((j, n)) => if j < s.len() && s[j] == 61 {
            match spec_esmtp_value(s, j + 1) {
                Some((j2, v)) => Some((j2, SpecParam { name: n, value: Some(v) })),
                None => Some((j, SpecParam { name: n, value: None })),
            }
        } else {
            Some((j, SpecParam { name: n, value: None }))
        },
        None => None,
    }
}

/// Further ESMTP parameters: a space followed by a parameter, zero or more
/// times.
pub open spec fn spec_params_more(s: Seq<u8>, j: int) -> (int, Seq<SpecParam>)
    decreases s.len() - j when 0 <= j <= s.len()
{
    if j < s.len() && s[j] == 32 {
        match spec_esmtp_param(s, j + 1) {
            Some((j2, p)) => if j + 1 < j2 <= s.len() {
                let (e, rest) = spec_params_more(s, j2);
                (e, seq![p] + rest)
            } else {
                (j, Seq::empty())
            },
            None => (j, Seq::empty()),
        }
    } else {
        (j, Seq::empty())
    }
}

/// A space-separated ESMTP parameter list at `i`, at least one parameter.
pub open spec fn spec_params(s: Seq<u8>, i: int) -> Option<(int, Seq<SpecParam>)> {
    match spec_esmtp_param(s, i) {
        Some((j, p)) => {
            let (e, rest) = spec_params_more(s, j);
            Some((e, seq![p] + rest))
        },
        None => None,
    }
}

/// Parse one ESMTP parameter at `pos`.
fn esmtp_param(input: &[u8], pos: usize) -> (r: Option<(usize, Param)>)
    requires
        pos <= input.len(),
    ensures
        match r {
            Some((np, p)) => spec_esmtp_param(input@, pos as int) == Some((np as int, p@)) && pos
                < np <= input.len(),
            None => spec_esmtp_param(input@, pos as int) is None,
        },
{
    if !(pos < input.len() && is_alnum(input[pos])) {
        proof {
            assert(spec_esmtp_keyword(input@, pos as int) is None);
        }
        return None;
    }
    let mut j: usize = pos + 1;
    while j < input.len() && is_kwrest(input[j])
        invariant
            pos + 1 <= j <= input.len(),
            forall|k: int| pos + 1 <= k < j ==> kwrest_cls()(input@[k]),
        decreases input.len() - j,
    {
        j = j + 1;
    }
    proof {
        lemma_scan_is(input@, pos + 1, j as int, kwrest_cls());
    }
    let name = crate::util::ascii_to_string(vstd::slice::slice_subrange(input, pos, j));
    proof {
        lemma_ascii_run(input@.subrange(pos as int, j as int));
        assert(forall|k: int|
            pos <= k < j ==> (alnum_cls()(input@[k]) || kwrest_cls()(input@[k])));
    }
    if j < input.len() && input[j] == 61 {
        let j2 = scan_esmtp_value(input, j + 1);
        if j + 1 < j2 {
            let value = crate::util::ascii_to_string(
                vstd::slice::slice_subrange(input, j + 1, j2),
            );
            proof {
                lemma_scan_elems(input@, j + 1, esmtp_value_cls());
                lemma_ascii_run(input@.subrange(j + 1, j2 as int));
            }
            return Some((j2, Param(name, Some(value))));
        }
    }
    Some((j, Param(name, None)))
}

/// A run of printable ASCII bytes decodes to its own characters.
proof fn lemma_ascii_run(bytes: Seq<u8>)
    requires
        forall|k: int| 0 <= k < bytes.len() ==> bytes[k] < 128,
    ensures
        crate::util::spec_legacy_chars(bytes) =~= crate::util::spec_ascii_chars(bytes),
{
}

/// Decide whether a byte is an ASCII letter or digit.
fn is_alnum(b: u8) -> (r: bool)
    ensures
        r == alnum_cls()(b),
{
    (48 <= b && b <= 57) || (65 <= b && b <= 90) || (97 <= b && b <= 122)
}

/// Decide whether a byte may continue an ESMTP keyword.
fn is_kwrest(b: u8) -> (r: bool)
    ensures
        r == kwrest_cls()(b),
{
    (48 <= b && b <= 57) || (65 <= b && b <= 90) || (97 <= b && b <= 122) || b == 45
}

/// Scan an ESMTP value run starting at `pos`.
fn scan_esmtp_value(input: &[u8], pos: usize) -> (r: usize)
    requires
        pos <= input.len(),
    ensures
        r == scan(input@, pos as int, esmtp_value_cls()),
        pos <= r <= input.len(),
{
    let mut j: usize = pos;
    while j < input.len() && ((33 <= input[j] && input[j] <= 60) || (62 <= input[j] && input[j]
        <= 126))
        invariant
            pos <= j <= input.len(),
            forall|k: int| pos <= k < j ==> esmtp_value_cls()(input@[k]),
        decreases input.len() - j,
    {
        j = j + 1;
    }
    proof {
        lemma_scan_is(input@, pos as int, j as int, esmtp_value_cls());
    }
    j
}

/// Parse the space-separated parameters that follow a path, starting at the
/// first parameter.
fn params_at(input: &[u8], pos: usize) -> (r: Option<(usize, Vec<Param>)>)
    requires
        pos <= input.len(),
    ensures
        match r {
            Some((np, ps)) => spec_params(input@, pos as int) == Some((
                np as int,
                ps@.map_values(|p: Param| p@),
            )) && pos < np <= input.len(),
            None => spec_params(input@, pos as int) is None,
        },
{
    let (j0, p0) = match esmtp_param(input, pos) {
        Some(x) => x,
        None => {
            return None;
        },
    };
    let ghost p0v = p0@;
    let mut out: Vec<Param> = Vec::new();
    out.push(p0);
    let mut j: usize = j0;
    proof {
        assert(out@.map_values(|p: Param| p@) =~= seq![p0v]);
    }
    loop
        invariant
            pos < j <= input.len(),
            seq![p0v] + spec_params_more(input@, j0 as int).1 =~= out@.map_values(|p: Param| p@)
                + spec_params_more(input@, j as int).1,
            spec_params_more(input@, j0 as int).0 == spec_params_more(input@, j as int).0,
        ensures
            pos < j <= input.len(),
            spec_params_more(input@, j0 as int).0 == j as int,
            seq![p0v] + spec_params_more(input@, j0 as int).1 =~= out@.map_values(|p: Param| p@),
        decreases input.len() - j,
    {
        if j < input.len() && input[j] == 32 {
            match esmtp_param(input, j + 1) {
                Some((j2, p)) => {
                    proof {
                        let prev = out@.map_values(|pp: Param| pp@);
                        assert(spec_params_more(input@, j as int).1 == seq![p@]
                            + spec_params_more(input@, j2 as int).1);
                        assert(prev + (seq![p@] + spec_params_more(input@, j2 as int).1) =~= (prev
                            + seq![p@]) + spec_params_more(input@, j2 as int).1);
                        assert(out@.push(p).map_values(|pp: Param| pp@) =~= prev + seq![p@]);
                    }
                    out.push(p);
                    j = j2;
                },
                None => {
                    proof {
                        assert(spec_params_more(input@, j as int).0 == j as int);
                        assert(spec_params_more(input@, j as int).1 =~= Seq::<SpecParam>::empty());
                        let rv = out@.map_values(|pp: Param| pp@);
                        assert(rv + Seq::<SpecParam>::empty() =~= rv);
                    }
                    break ;
                },
            }
        } else {
            proof {
                assert(spec_params_more(input@, j as int).0 == j as int);
                assert(spec_params_more(input@, j as int).1 =~= Seq::<SpecParam>::empty());
                let rv = out@.map_values(|pp: Param| pp@);
                assert(rv + Seq::<SpecParam>::empty() =~= rv);
            }
            break ;
        }
    }
    Some((j, out))
}

/// A MAIL command: `MAIL FROM:` (case-insensitive), a reverse path, an
/// optional space-separated parameter list, and CRLF.
pub open spec fn spec_mail_command(s: Seq<u8>, intl: bool) -> Option<(
    int,
    (SpecReversePath, Seq<SpecParam>),
)> {
    if spec_ci_match(s, 0, kw_mail_from()) {
        match spec_reverse_path(s, 10, intl) {
            Some((j, rp)) => if j < s.len() && s[j] == 32 {
                match spec_params(s, j + 1) {
                    Some((j2, ps)) => if crate::rfc5234::spec_crlf_at(s, j2) {
                        Some((j2 + 2, (rp, ps)))
                    } else {
                        None
                    },
                    None => None,
                }
            } else {
                if crate::rfc5234::spec_crlf_at(s, j) {
                    Some((j + 2, (rp, Seq::empty())))
                } else {
                    None
                }
            },
            None => None,
        }
    } else {
        None
    }
}

/// A RCPT command: `RCPT TO:` (case-insensitive), a forward path, an
/// optional space-separated parameter list, and CRLF.
pub open spec fn spec_rcpt_command(s: Seq<u8>, intl: bool) -> Option<(
    int,
    (SpecForwardPath, Seq<SpecParam>),
)> {
    if spec_ci_match(s, 0, kw_rcpt_to()) {
        match spec_forward_path(s, 8, intl) {
            Some((j, fp)) => if j < s.len() && s[j] == 32 {
                match spec_params(s, j + 1) {
                    Some((j2, ps)) => if crate::rfc5234::spec_crlf_at(s, j2) {
                        Some((j2 + 2, (fp, ps)))
                    } else {
                        None
                    },
                    None => None,
                }
            } else {
                if crate::rfc5234::spec_crlf_at(s, j) {
                    Some((j + 2, (fp, Seq::empty())))
                } else {
                    None
                }
            },
            None => None,
        }
    } else {
        None
    }
}

/// Parse a full SMTP MAIL command, yielding the reverse path and the ESMTP
/// parameters.
pub fn mail_command<P: UTF8Policy>(input: &[u8]) -> (r: ParseResult<(ReversePath, Vec<Param>)>)
    ensures
        match r {
            Ok((rem, (rp, ps))) => match spec_mail_command(input@, P::intl()) {
                Some((np, (srp, sps))) => rp@ == srp && ps@.map_values(|p: Param| p@) == sps
                    && rem@ == input@.subrange(np, input@.len() as int),
                None => false,
            },
            Err(e) => e == ParseError::GrammarMismatch && spec_mail_command(
                input@,
                P::intl(),
            ) is None,
        },
{
    let intl = P::is_intl();
    let kw: [u8; 10] = [77u8, 65u8, 73u8, 76u8, 32u8, 70u8, 82u8, 79u8, 77u8, 58u8];
    proof {
        assert(kw@ =~= kw_mail_from());
    }
    let j0 = match tag_ci(input, 0, kw.as_slice()) {
        Some(x) => x,
        None => {
            return Err(ParseError::GrammarMismatch);
        },
    };
    let (j, rp) = match reverse_path_at(input, j0, intl) {
        Some(x) => x,
        None => {
            return Err(ParseError::GrammarMismatch);
        },
    };
    let (j2, ps) = if j < input.len() && input[j] == 32 {
        match params_at(input, j + 1) {
            Some(x) => x,
            None => {
                return Err(ParseError::GrammarMismatch);
            },
        }
    } else {
        let empty: Vec<Param> = Vec::new();
        proof {
            assert(empty@.map_values(|p: Param| p@) =~= Seq::<SpecParam>::empty());
        }
        (j, empty)
    };
    match crate::rfc5234::crlf(input, j2) {
        Some(end) => Ok((vstd::slice::slice_subrange(input, end, input.len()), (rp, ps))),
        None => Err(ParseError::GrammarMismatch),
    }
}

/// Parse a full SMTP RCPT command, yielding the forward path and the ESMTP
/// parameters.
pub fn rcpt_command<P: UTF8Policy>(input: &[u8]) -> (r: ParseResult<(ForwardPath, Vec<Param>)>)
    ensures
        match r {
            Ok((rem, (fp, ps))) => match spec_rcpt_command(input@, P::intl()) {
                Some((np, (sfp, sps))) => fp@ == sfp && ps@.map_values(|p: Param| p@) == sps
                    && rem@ == input@.subrange(np, input@.len() as int),
                None => false,
            },
            Err(e) => e == ParseError::GrammarMismatch && spec_rcpt_command(
                input@,
                P::intl(),
            ) is None,
        },
{
    let intl = P::is_intl();
    let kw: [u8; 8] = [82u8, 67u8, 80u8, 84u8, 32u8, 84u8, 79u8, 58u8];
    proof {
        assert(kw@ =~= kw_rcpt_to());
    }
    let j0 = match tag_ci(input, 0, kw.as_slice()) {
        Some(x) => x,
        None => {
            return Err(ParseError::GrammarMismatch);
        },
    };
    let (j, fp) = match forward_path_at(input, j0, intl) {
        Some(x) => x,
        None => {
            return Err(ParseError::GrammarMismatch);
        },
    };
    let (j2, ps) = if j < input.len() && input[j] == 32 {
        match params_at(input, j + 1) {
            Some(x) => x,
            None => {
                return Err(ParseError::GrammarMismatch);
            },
        }
    } else {
        let empty: Vec<Param> = Vec::new();
        proof {
            assert(empty@.map_values(|p: Param| p@) =~= Seq::<SpecParam>::empty());
        }
        (j, empty)
    };
    match crate::rfc5234::crlf(input, j2) {
        Some(end) => Ok((vstd::slice::slice_subrange(input, end, input.len()), (fp, ps))),
        None => Err(ParseError::GrammarMismatch),
    }
}

/// Report whether a bare address (no angle brackets) parses completely as
/// an SMTP mailbox under the selected policy.
pub fn validate_address<P: UTF8Policy>(input: &[u8]) -> (r: bool)
    ensures
        r == match spec_mailbox(input@, 0, P::intl()) {
            Some((np, _)) => np == input@.len(),
            None => false,
        },
{
    match mailbox_at(input, 0, P::is_intl()) {
        Some((np, _)) => np == input.len(),
        None => false,
    }
}

/// An SMTP `String` at `i`: an atom, or a quoted string.
pub open spec fn spec_smtp_string(s: Seq<u8>, i: int, intl: bool) -> Option<(
    int,
    SpecSMTPString,
)> {
    let j = scan(s, i, atext_cls(intl));
    if i < j <= s.len() {
        Some((j, SpecSMTPString::Atom(spec_decode_octets(intl, s.subrange(i, j)))))
    } else {
        match spec_quoted_string_smtp(s, i, intl) {
            Some((j2, t)) => Some((j2, SpecSMTPString::Quoted(t))),
            None => None,
        }
    }
}

/// Parse an SMTP `String` (an atom or a quoted string) at `pos`.
pub fn _smtp_string(input: &[u8], pos: usize, intl: bool) -> (r: Option<(usize, SMTPString)>)
    requires
        pos <= input.len(),
    ensures
        match r {
            Some((np, v)) => spec_smtp_string(input@, pos as int, intl) == Some((np as int, v@))
                && pos < np <= input.len(),
            None => spec_smtp_string(input@, pos as int, intl) is None,
        },
{
    let j = scan_atext(input, pos, intl);
    if pos < j {
        let text = decode_octets(intl, vstd::slice::slice_subrange(input, pos, j));
        Some((j, SMTPString::Atom(text)))
    } else {
        match quoted_string_smtp(input, pos, intl) {
            Some((j2, t)) => Some((j2, SMTPString::Quoted(QuotedString(t)))),
            None => None,
        }
    }
}

/// A valid parameter name and optional value, as byte sequences.
pub open spec fn spec_param_valid(nb: Seq<u8>, vb: Option<Seq<u8>>) -> bool {
    &&& match spec_esmtp_keyword(nb, 0) {
        Some((j, _)) => j == nb.len(),
        None => false,
    }
    &&& match vb {
        Some(v) => match spec_esmtp_value(v, 0) {
            Some((j, _)) => j == v.len(),
            None => false,
        },
        None => true,
    }
}

/// Decide whether the whole of `b` is an ESMTP keyword.
fn keyword_full(b: &[u8]) -> (r: bool)
    ensures
        r == match spec_esmtp_keyword(b@, 0) {
            Some((j, _)) => j == b@.len(),
            None => false,
        },
{
    if b.len() == 0 || !is_alnum(b[0]) {
        return false;
    }
    let mut j: usize = 1;
    while j < b.len() && is_kwrest(b[j])
        invariant
            1 <= j <= b.len(),
            forall|k: int| 1 <= k < j ==> kwrest_cls()(b@[k]),
        decreases b.len() - j,
    {
        j = j + 1;
    }
    proof {
        lemma_scan_is(b@, 1, j as int, kwrest_cls());
    }
    j == b.len()
}

/// Decide whether the whole of `b` is a non-empty ESMTP value.
fn value_full(b: &[u8]) -> (r: bool)
    ensures
        r == match spec_esmtp_value(b@, 0) {
            Some((j, _)) => j == b@.len(),
            None => false,
        },
{
    let j = scan_esmtp_value(b, 0);
    0 < j && j == b.len()
}

impl Param {
    /// Build a validated ESMTP parameter from a name and an optional value.
    ///
    /// The name must be a keyword (a letter or digit, then letters, digits
    /// or hyphens); the value, when given, must be non-empty printable text
    /// without `=`.
    pub fn new(name: &str, value: Option<&str>) -> (r: Result<Param, ParseError>)
        ensures
            ({
                let nb = name@;
                let vb = match value {
                    Some(v) => Some(v@),
                    None => None,
                };
                match r {
                    Ok(p) => spec_param_valid(
                        name.spec_bytes(),
                        match value {
                            Some(v) => Some(v.spec_bytes()),
                            None => None,
                        },
                    ) && p.0@ == nb && (match (&p.1, vb) {
                        (Some(pv), Some(v)) => pv@ == v,
                        (None, None) => true,
                        _ => false,
                    }),
                    Err(e) => e == ParseError::GrammarMismatch && !spec_param_valid(
                        name.spec_bytes(),
                        match value {
                            Some(v) => Some(v.spec_bytes()),
                            None => None,
                        },
                    ),
                }
            }),
    {
        if !keyword_full(name.as_bytes()) {
            return Err(ParseError::GrammarMismatch);
        }
        let v = match value {
            Some(v) => {
                if !value_full(v.as_bytes()) {
                    return Err(ParseError::GrammarMismatch);
                }
                Some(v.to_owned())
            },
            None => None,
        };
        Ok(Param(name.to_owned(), v))
    }
}

impl Domain {
    /// Parse a domain from SMTP dot-string syntax, requiring the whole
    /// input to match.
    pub fn from_smtp(value: &[u8]) -> (r: Result<Domain, ParseError>)
        ensures
            match r {
                Ok(d) => spec_dot_string(value@, 0, false) == Some((value@.len() as int, d@)),
                Err(e) => match spec_dot_string(value@, 0, false) {
                    Some((j, _)) => j < value@.len() && e == ParseError::TrailingInput,
                    None => e == ParseError::GrammarMismatch,
                },
            },
    {
        match dot_string(value, 0, false) {
            Some((j, t)) => {
                if j == value.len() {
                    Ok(Domain(t))
                } else {
                    Err(ParseError::TrailingInput)
                }
            },
            None => Err(ParseError::GrammarMismatch),
        }
    }
}

/// The SMTP-side local part normalization: a quoted local part becomes a
/// dot-atom exactly when its decoded content, re-parsed as a dot-string in
/// isolation, fully matches the content.
pub open spec fn spec_smtp_unquote(lp: SpecLocalPart) -> SpecLocalPart {
    match lp {
        SpecLocalPart::Quoted(q) => {
            let b = vstd::utf8::encode_utf8(q);
            match spec_dot_string(b, 0, false) {
                Some((j, t)) => if j == b.len() && t == q {
                    SpecLocalPart::DotAtom(q)
                } else {
                    SpecLocalPart::Quoted(q)
                },
                None => SpecLocalPart::Quoted(q),
            }
        },
        SpecLocalPart::DotAtom(t) => SpecLocalPart::DotAtom(t),
    }
}

impl LocalPart {
    /// Rewrite a quoted local part to an equivalent dot-atom when its
    /// content is already a valid dot-string with no significant quoting;
    /// otherwise leave it unchanged.
    pub fn smtp_try_unquote(&mut self)
        ensures
            final(self)@ == spec_smtp_unquote(old(self)@),
    {
        let mut repl: Option<String> = None;
        match &*self {
            LocalPart::Quoted(qs) => {
                let b = qs.0.as_str().as_bytes();
                match dot_string(b, 0, false) {
                    Some((j, t)) => {
                        if j == b.len() && t == qs.0 {
                            repl = Some(t);
                        }
                    },
                    None => {},
                }
            },
            LocalPart::DotAtom(_) => {},
        }
        if let Some(t) = repl {
            *self = LocalPart::DotAtom(DotAtom(t));
        }
    }
}

/// After any complete atom segment boundary, the dot-string continuation
/// reaches the end of a well-formed dot-atom byte text.
proof fn lemma_dot_more_full(b: Seq<u8>, p: int, intl: bool)
    requires
        0 <= p <= b.len(),
        b.len() > 0,
        forall|k: int| 0 <= k < b.len() ==> (atext_cls(intl)(#[trigger] b[k]) || b[k] == 46),
        b[b.len() - 1] != 46,
        forall|k: int| 0 <= k < b.len() - 1 ==> !(#[trigger] b[k] == 46 && b[k + 1] == 46),
        p == b.len() || b[p] == 46,
    ensures
        spec_dot_more(b, p, intl) == b.len(),
    decreases b.len() - p,
{
    if p < b.len() {
        assert(b[p] == 46);
        assert(p < b.len() - 1);
        assert(b[p + 1] != 46);
        assert(atext_cls(intl)(b[p + 1]));
        let j2 = scan(b, p + 1, atext_cls(intl));
        crate::bytescan::lemma_scan_nonempty(b, p + 1, atext_cls(intl));
        lemma_scan_bounds(b, p + 1, atext_cls(intl));
        lemma_scan_elems(b, p + 1, atext_cls(intl));
        assert(j2 == b.len() || b[j2] == 46);
        lemma_dot_more_full(b, j2, intl);
    }
}

/// Bytes of the UTF-8 encoding of one character: an ASCII character is its
/// own single byte; any other character encodes to bytes of 128 or more.
proof fn lemma_encode_scalar_bytes(c: char)
    ensures
        c < 128 ==> vstd::utf8::encode_scalar(c as u32) =~= seq![c as u8],
        c >= 128 ==> (forall|k: int|
            0 <= k < vstd::utf8::encode_scalar(c as u32).len() ==> (
            #[trigger] vstd::utf8::encode_scalar(c as u32)[k]) >= 128),
        vstd::utf8::encode_scalar(c as u32).len() >= 1,
{
    vstd::utf8::char_is_scalar(c);
    let s = c as u32;
    if c < 128 {
        assert(s < 128);
        assert((s & 0x7F) == s) by (bit_vector)
            requires
                s < 128,
        ;
        assert(vstd::utf8::leading_byte_width_1(s) == s as u8);
        assert(vstd::utf8::encode_scalar(s) =~= seq![c as u8]);
    } else {
        assert(s >= 128);
        assert((0x80u8 | ((s & 0x3F) as u8)) >= 128) by (bit_vector);
        assert((0x80u8 | (((s >> 6) & 0x3F) as u8)) >= 128) by (bit_vector);
        assert((0x80u8 | (((s >> 12) & 0x3F) as u8)) >= 128) by (bit_vector);
        assert((0xC0u8 | (((s >> 6) & 0x1F) as u8)) >= 128) by (bit_vector);
        assert((0xE0u8 | (((s >> 12) & 0x0F) as u8)) >= 128) by (bit_vector);
        assert((0xF0u8 | (((s >> 18) & 0x7) as u8)) >= 128) by (bit_vector);
    }
}

/// Byte-level shape of the UTF-8 encoding of dot-separated atom text whose
/// last character is not a dot: every byte is an atom byte or a dot, a dot
/// stands first exactly when the text starts with one, the last byte is no
/// dot, and no two dot bytes are adjacent.
proof fn lemma_dot_atom_bytes(t: Seq<char>, intl: bool)
    requires
        t.len() > 0,
        forall|k: int|
            0 <= k < t.len() ==> (#[trigger] t[k] == '.' || crate::types::is_atext_char(
                t[k],
                intl,
            )),
        forall|k: int| 0 <= k < t.len() - 1 ==> !(#[trigger] t[k] == '.' && t[k + 1] == '.'),
        t[t.len() - 1] != '.',
    ensures
        vstd::utf8::encode_utf8(t).len() > 0,
        forall|k: int|
            0 <= k < vstd::utf8::encode_utf8(t).len() ==> (atext_cls(intl)(
                #[trigger] vstd::utf8::encode_utf8(t)[k],
            ) || vstd::utf8::encode_utf8(t)[k] == 46),
        (vstd::utf8::encode_utf8(t)[0] == 46) <==> (t[0] == '.'),
        vstd::utf8::encode_utf8(t)[vstd::utf8::encode_utf8(t).len() - 1] != 46,
        forall|k: int|
            0 <= k < vstd::utf8::encode_utf8(t).len() - 1 ==> !(
            #[trigger] vstd::utf8::encode_utf8(t)[k] == 46 && vstd::utf8::encode_utf8(t)[k + 1]
                == 46),
    decreases t.len(),
{
    let b = vstd::utf8::encode_utf8(t);
    let c = t[0];
    let chunk = vstd::utf8::encode_scalar(c as u32);
    lemma_encode_scalar_bytes(c);
    assert(b == chunk + vstd::utf8::encode_utf8(t.drop_first()));
    if c < 128 {
        assert(chunk =~= seq![c as u8]);
        if c as u8 == 46 {
            assert(c == '.');
        }
        if c == '.' {
            assert(c as u8 == 46);
        } else {
            assert(crate::types::is_atext_char(c, intl));
            assert(crate::rfc5234::is_atext_byte(c as u8));
        }
    }
    if t.len() == 1 {
        assert(t.drop_first() =~= Seq::<char>::empty());
        assert(vstd::utf8::encode_utf8(t.drop_first()) =~= Seq::<u8>::empty());
        assert(b =~= chunk);
        assert(c != '.');
        if c < 128 {
            assert(b.len() == 1);
            assert(b[0] == c as u8);
            assert(b[0] != 46);
        } else {
            assert(forall|k: int| 0 <= k < b.len() ==> (#[trigger] b[k]) >= 128);
            assert(crate::types::is_atext_char(c, intl));
            assert(intl);
        }
    } else {
        let rest = t.drop_first();
        lemma_dot_atom_bytes(rest, intl);
        let rb = vstd::utf8::encode_utf8(rest);
        assert(rest[0] == t[1]);
        assert(rest[rest.len() - 1] == t[t.len() - 1]);
        if c >= 128 {
            assert(crate::types::is_atext_char(c, intl));
            assert(intl);
        }
        assert forall|k: int| 0 <= k < b.len() implies (atext_cls(intl)(#[trigger] b[k]) || b[k]
            == 46) by {
            if k < chunk.len() {
                assert(b[k] == chunk[k]);
                if c >= 128 {
                    assert(chunk[k] >= 128);
                }
            } else {
                assert(b[k] == rb[k - chunk.len()]);
            }
        }
        assert(b[0] == chunk[0]);
        if c >= 128 {
            assert(chunk[0] >= 128);
            assert(b[0] != 46 && c != '.');
        }
        assert(b.len() - 1 - chunk.len() == rb.len() - 1);
        assert(b[b.len() - 1] == rb[rb.len() - 1]);
        assert forall|k: int|
            0 <= k < b.len() - 1 implies !(#[trigger] b[k] == 46 && b[k + 1] == 46) by {
            if k + 1 < chunk.len() {
                assert(c >= 128);
                assert(b[k] == chunk[k] && chunk[k] >= 128);
            } else if k + 1 == chunk.len() {
                assert(b[k] == chunk[k]);
                assert(b[k + 1] == rb[0]);
                if b[k] == 46 && b[k + 1] == 46 {
                    assert(c < 128);
                    assert(chunk.len() == 1 && k == 0);
                    assert(c == '.');
                    assert(rest[0] == '.');
                    assert(t[0] == '.' && t[1] == '.');
                    assert(false);
                }
            } else {
                assert(b[k] == rb[k - chunk.len()]);
                assert(b[k + 1] == rb[k + 1 - chunk.len()]);
            }
        }
    }
}

/// Re-parsing the rendered text of a valid dot-atom under the same policy
/// consumes the whole text and yields the same value: no information is
/// lost on the round trip for already-normalized tokens.
pub proof fn lemma_dot_string_round_trip(t: Seq<char>, intl: bool)
    requires
        crate::types::is_dot_atom_text(t, intl),
    ensures
        spec_dot_string(vstd::utf8::encode_utf8(t), 0, intl) == Some(
            (vstd::utf8::encode_utf8(t).len() as int, t),
        ),
{
    let b = vstd::utf8::encode_utf8(t);
    lemma_dot_atom_bytes(t, intl);
    assert(b[0] != 46);
    assert(atext_cls(intl)(b[0]));
    let j1 = scan(b, 0, atext_cls(intl));
    crate::bytescan::lemma_scan_nonempty(b, 0, atext_cls(intl));
    lemma_scan_bounds(b, 0, atext_cls(intl));
    lemma_scan_elems(b, 0, atext_cls(intl));
    assert(j1 == b.len() || b[j1] == 46);
    lemma_dot_more_full(b, j1, intl);
    assert(spec_dot_string_end(b, 0, intl) == Some(b.len() as int));
    assert(b.subrange(0, b.len() as int) =~= b);
    if intl {
        vstd::utf8::encode_utf8_valid_utf8(t);
        vstd::utf8::encode_utf8_decode_utf8(t);
        assert(spec_decode_octets(intl, b) == t);
    } else {
        assert forall|k: int| 0 <= k < t.len() implies (#[trigger] t[k]) < 128 by {
            if t[k] != '.' {
                assert(crate::types::is_atext_char(t[k], intl));
            }
        }
        lemma_ascii_encode(t);
        assert forall|k: int| 0 <= k < b.len() implies crate::util::spec_legacy_chars(b)[k]
            == t[k] by {
            assert(b[k] == t[k] as u8);
            assert(t[k] < 128);
            vstd::utf8::char_is_scalar(t[k]);
            vstd::utf8::char_u32_cast(t[k], t[k] as u32);
            assert('\0' <= t[k]);
        }
        assert(crate::util::spec_legacy_chars(b) =~= t);
    }
}

/// The UTF-8 encoding of text whose characters are all below 128 is the
/// sequence of those characters read as bytes.
proof fn lemma_ascii_encode(t: Seq<char>)
    requires
        forall|k: int| 0 <= k < t.len() ==> (#[trigger] t[k]) < 128,
    ensures
        vstd::utf8::encode_utf8(t).len() == t.len(),
        forall|k: int|
            0 <= k < t.len() ==> (#[trigger] vstd::utf8::encode_utf8(t)[k]) == t[k] as u8,
    decreases t.len(),
{
    if t.len() > 0 {
        let c = t[0];
        let chunk = vstd::utf8::encode_scalar(c as u32);
        lemma_encode_scalar_bytes(c);
        assert(chunk =~= seq![c as u8]);
        let rest = t.drop_first();
        lemma_ascii_encode(rest);
        let b = vstd::utf8::encode_utf8(t);
        assert(b == chunk + vstd::utf8::encode_utf8(rest));
        assert forall|k: int| 0 <= k < t.len() implies (#[trigger] b[k]) == t[k] as u8 by {
            if k == 0 {
                assert(b[0] == chunk[0]);
            } else {
                assert(b[k] == vstd::utf8::encode_utf8(rest)[k - 1]);
                assert(rest[k - 1] == t[k]);
            }
        }
    }
}



} // verus!
