//! The structured values produced by the SMTP and message-header grammars.
//!
//! All values are immutable once produced; the one explicit post-parse
//! normalization is [`LocalPart::smtp_try_unquote`].

use vstd::prelude::*;

use crate::rfc5234::is_atext_byte;

verus! {

/// A character of the atom class under the given policy: the ASCII atom
/// bytes, plus (under the internationalized policy) everything above ASCII.
pub open spec fn is_atext_char(c: char, intl: bool) -> bool {
    if c < 128 {
        is_atext_byte(c as u8)
    } else {
        intl
    }
}

/// Text of a dot-atom: non-empty, dot-separated atom segments, with no
/// leading, trailing or doubled dot.
pub open spec fn is_dot_atom_text(t: Seq<char>, intl: bool) -> bool {
    &&& t.len() > 0
    &&& t[0] != '.'
    &&& t[t.len() - 1] != '.'
    &&& forall|k: int| 0 <= k < t.len() ==> (t[k] == '.' || is_atext_char(t[k], intl))
    &&& forall|k: int| 0 <= k < t.len() - 1 ==> !(#[trigger] t[k] == '.' && t[k + 1] == '.')
}

/// Non-empty, dot-separated sequence of atom characters.
#[derive(Clone, Debug, PartialEq)]
pub struct DotAtom(pub String);

impl View for DotAtom {
    type V = Seq<char>;

    open spec fn view(&self) -> Seq<char> {
        self.0@
    }
}

/// Fully unescaped, unfolded content of a quoted string.
#[derive(Clone, Debug, PartialEq)]
pub struct QuotedString(pub String);

impl View for QuotedString {
    type V = Seq<char>;

    open spec fn view(&self) -> Seq<char> {
        self.0@
    }
}

/// Specification-level local part.
pub enum SpecLocalPart {
    /// Unquoted dot-atom text.
    DotAtom(Seq<char>),
    /// Decoded quoted-string content.
    Quoted(Seq<char>),
}

/// The part of an address before the `@`.
#[derive(Clone, Debug, PartialEq)]
pub enum LocalPart {
    /// Unquoted dot-atom form.
    DotAtom(DotAtom),
    /// Quoted-string form.
    Quoted(QuotedString),
}

impl View for LocalPart {
    type V = SpecLocalPart;

    open spec fn view(&self) -> SpecLocalPart {
        match self {
            LocalPart::DotAtom(a) => SpecLocalPart::DotAtom(a@),
            LocalPart::Quoted(q) => SpecLocalPart::Quoted(q@),
        }
    }
}

impl From<DotAtom> for LocalPart {
    fn from(a: DotAtom) -> (r: LocalPart) {
        LocalPart::DotAtom(a)
    }
}

impl vstd::std_specs::convert::FromSpecImpl<DotAtom> for LocalPart {
    open spec fn obeys_from_spec() -> bool {
        true
    }

    open spec fn from_spec(a: DotAtom) -> LocalPart {
        LocalPart::DotAtom(a)
    }
}

impl From<QuotedString> for LocalPart {
    fn from(q: QuotedString) -> (r: LocalPart) {
        LocalPart::Quoted(q)
    }
}

impl vstd::std_specs::convert::FromSpecImpl<QuotedString> for LocalPart {
    open spec fn obeys_from_spec() -> bool {
        true
    }

    open spec fn from_spec(q: QuotedString) -> LocalPart {
        LocalPart::Quoted(q)
    }
}

/// Dot-atom used as a domain name.
#[derive(Clone, Debug, PartialEq)]
pub struct Domain(pub String);

impl View for Domain {
    type V = Seq<char>;

    open spec fn view(&self) -> Seq<char> {
        self.0@
    }
}

/// An IPv4 address as four octets.
#[derive(Clone, Copy, Debug, PartialEq, Eq, Structural)]
pub struct Ipv4Addr(pub u8, pub u8, pub u8, pub u8);

/// An IPv6 address as eight 16-bit groups.
#[derive(Clone, Copy, Debug, PartialEq)]
pub struct Ipv6Addr(pub [u16; 8]);

/// Specification-level IP address.
pub enum SpecIpAddr {
    /// Four IPv4 octets.
    V4(u8, u8, u8, u8),
    /// Eight IPv6 groups.
    V6(Seq<u16>),
}

/// A parsed IPv4 or IPv6 address.
#[derive(Clone, Copy, Debug, PartialEq)]
pub enum IpAddr {
    /// An IPv4 address.
    V4(Ipv4Addr),
    /// An IPv6 address.
    V6(Ipv6Addr),
}

impl View for IpAddr {
    type V = SpecIpAddr;

    open spec fn view(&self) -> SpecIpAddr {
        match self {
            IpAddr::V4(a) => SpecIpAddr::V4(a.0, a.1, a.2, a.3),
            IpAddr::V6(a) => SpecIpAddr::V6(a.0@),
        }
    }
}

/// Specification-level address literal.
pub enum SpecAddressLiteral {
    /// A literal upgraded to a parsed IP address.
    IP(SpecIpAddr),
    /// A literal kept as free-form text.
    FreeForm(Seq<char>),
}

/// A bracket-delimited domain literal.
///
/// A free-form literal is upgraded to `IP` when its text parses as a valid
/// IPv4 or IPv6 textual address; the upgrade happens once, at construction.
#[derive(Clone, Debug, PartialEq)]
pub enum AddressLiteral {
    /// A literal that parsed as an IP address.
    IP(IpAddr),
    /// A literal kept as free-form text.
    FreeForm(String),
}

impl View for AddressLiteral {
    type V = SpecAddressLiteral;

    open spec fn view(&self) -> SpecAddressLiteral {
        match self {
            AddressLiteral::IP(ip) => SpecAddressLiteral::IP(ip@),
            AddressLiteral::FreeForm(t) => SpecAddressLiteral::FreeForm(t@),
        }
    }
}

/// The upgrade step: a free-form literal becomes an IP literal exactly when
/// its text parses as an IPv4 or IPv6 address; anything else is refused.
pub open spec fn spec_upgrade(v: SpecAddressLiteral) -> Option<SpecAddressLiteral> {
    match v {
        SpecAddressLiteral::FreeForm(t) => match crate::ip::spec_ip_literal(
            vstd::utf8::encode_utf8(t),
        ) {
            Some(ip) => Some(SpecAddressLiteral::IP(ip)),
            None => None,
        },
        SpecAddressLiteral::IP(_) => None,
    }
}

impl AddressLiteral {
    /// Try to upgrade a free-form literal to a parsed IP address. The
    /// upgrade is one-directional: an already-parsed literal yields `None`.
    pub fn upgrade(&self) -> (r: Option<AddressLiteral>)
        ensures
            match r {
                Some(al) => spec_upgrade(self@) == Some(al@),
                None => spec_upgrade(self@) is None,
            },
    {
        match self {
            AddressLiteral::FreeForm(t) => match crate::ip::ip_literal(t.as_str().as_bytes()) {
                Some(ip) => Some(AddressLiteral::IP(ip)),
                None => None,
            },
            AddressLiteral::IP(_) => None,
        }
    }
}

/// Specification-level domain part.
pub enum SpecDomainPart {
    /// A dot-atom domain name.
    Domain(Seq<char>),
    /// An address literal.
    Address(SpecAddressLiteral),
}

/// The part of an address after the `@`.
#[derive(Clone, Debug, PartialEq)]
pub enum DomainPart {
    /// A dot-atom domain name.
    Domain(Domain),
    /// An address literal.
    Address(AddressLiteral),
}

impl View for DomainPart {
    type V = SpecDomainPart;

    open spec fn view(&self) -> SpecDomainPart {
        match self {
            DomainPart::Domain(d) => SpecDomainPart::Domain(d@),
            DomainPart::Address(a) => SpecDomainPart::Address(a@),
        }
    }
}

/// Specification-level SMTP mailbox.
pub struct SpecMailbox {
    /// The local part before the `@`.
    pub local: SpecLocalPart,
    /// The domain part after the `@`.
    pub domain: SpecDomainPart,
}

/// The SMTP-level address: local part at domain part.
#[derive(Clone, Debug, PartialEq)]
pub struct Mailbox(pub LocalPart, pub DomainPart);

impl View for Mailbox {
    type V = SpecMailbox;

    open spec fn view(&self) -> SpecMailbox {
        SpecMailbox { local: self.0@, domain: self.1@ }
    }
}

/// Specification-level path.
pub struct SpecPath {
    /// The mailbox the path designates.
    pub mailbox: SpecMailbox,
    /// The legacy source route, normally empty.
    pub route: Seq<Seq<char>>,
}

/// A mailbox together with a legacy source route.
#[derive(Clone, Debug, PartialEq)]
pub struct Path(pub Mailbox, pub Vec<Domain>);

impl View for Path {
    type V = SpecPath;

    open spec fn view(&self) -> SpecPath {
        SpecPath { mailbox: self.0@, route: self.1@.map_values(|d: Domain| d@) }
    }
}

} // verus!
