use rustyknife::behaviour::{Intl, Legacy};
use rustyknife::rfc2047::decode_qp;
use rustyknife::rfc4616::command;
use rustyknife::rfc5321::{rcpt_command, ForwardPath, Param, SMTPString};
use rustyknife::rfc5322::{
    concat_qs, reply_to, unstructured, Address, CommentContent, QContent, Text,
    _concat_atom_and_qs, _concat_comment,
};
use rustyknife::types::{AddressLiteral, Domain, DomainPart, IpAddr, Ipv4Addr, Ipv6Addr};
use rustyknife::util::ParseError;

#[test]
fn param_validation() {
    assert!(Param::new("ORCPT", None).is_ok());
    assert!(Param::new("X-EXT", Some("v")).is_ok());
    assert_eq!(
        Param::new("BAD NAME", None),
        Err(ParseError::GrammarMismatch)
    );
    assert_eq!(Param::new("A=B", None), Err(ParseError::GrammarMismatch));
    assert_eq!(Param::new("", None), Err(ParseError::GrammarMismatch));
    assert_eq!(
        Param::new("RET", Some("a b")),
        Err(ParseError::GrammarMismatch)
    );
    assert_eq!(Param::new("RET", Some("")), Err(ParseError::GrammarMismatch));
}

#[test]
fn upgrade_literal() {
    let free = AddressLiteral::FreeForm("127.0.0.1".into());
    assert_eq!(
        free.upgrade(),
        Some(AddressLiteral::IP(IpAddr::V4(Ipv4Addr(127, 0, 0, 1))))
    );
    let odd = AddressLiteral::FreeForm("smtp.example.org".into());
    assert_eq!(odd.upgrade(), None);
    let done = AddressLiteral::IP(IpAddr::V4(Ipv4Addr(1, 2, 3, 4)));
    assert_eq!(done.upgrade(), None);
}

#[test]
fn ipv6_literals() {
    let (_, (path, _)) = rcpt_command::<Intl>(b"RCPT TO:<bob@[IPv6:::1]>\r\n").unwrap();
    let expected = IpAddr::V6(Ipv6Addr([0, 0, 0, 0, 0, 0, 0, 1]));
    match path {
        ForwardPath::Path(p) => match (p.0).1 {
            DomainPart::Address(AddressLiteral::IP(ip)) => assert_eq!(ip, expected),
            other => panic!("not an IP literal: {:?}", other),
        },
        other => panic!("not a path: {:?}", other),
    }

    let (_, (path, _)) =
        rcpt_command::<Intl>(b"RCPT TO:<bob@[1080:0:0:0:8:800:200C:417A]>\r\n").unwrap();
    let expected = IpAddr::V6(Ipv6Addr([
        0x1080, 0, 0, 0, 0x8, 0x800, 0x200C, 0x417A,
    ]));
    match path {
        ForwardPath::Path(p) => match (p.0).1 {
            DomainPart::Address(AddressLiteral::IP(ip)) => assert_eq!(ip, expected),
            other => panic!("not an IP literal: {:?}", other),
        },
        other => panic!("not a path: {:?}", other),
    }
}

#[test]
fn free_form_literal_kept() {
    let (_, (path, _)) = rcpt_command::<Intl>(b"RCPT TO:<bob@[x.25+net]>\r\n").unwrap();
    match path {
        ForwardPath::Path(p) => match (p.0).1 {
            DomainPart::Address(AddressLiteral::FreeForm(t)) => assert_eq!(t, "x.25+net"),
            other => panic!("unexpected domain part: {:?}", other),
        },
        other => panic!("not a path: {:?}", other),
    }
}

#[test]
fn domain_from_smtp_round_trip() {
    let d = Domain::from_smtp(b"a.b.c").unwrap();
    assert_eq!(d.0, "a.b.c");
    let again = Domain::from_smtp(d.0.as_bytes()).unwrap();
    assert_eq!(again, d);
}

#[test]
fn domain_from_smtp_errors() {
    assert_eq!(Domain::from_smtp(b""), Err(ParseError::GrammarMismatch));
    assert_eq!(Domain::from_smtp(b".a"), Err(ParseError::GrammarMismatch));
    assert_eq!(Domain::from_smtp(b"a.b "), Err(ParseError::TrailingInput));
}

#[test]
fn qp_decoding() {
    assert_eq!(decode_qp(b"a=20b_c").unwrap(), b"a b c");
    // an escape that is not two hex digits is copied verbatim
    assert_eq!(decode_qp(b"=ZZ").unwrap(), b"=ZZ");
    assert_eq!(decode_qp(b"").unwrap(), b"");
}

#[test]
fn unstructured_q_form() {
    let (rem, parsed) = unstructured::<Intl>(b"=?utf-8?Q?caf=C3=A9?=").unwrap();
    assert_eq!(rem.len(), 0);
    assert_eq!(parsed, "café");
}

#[test]
fn unstructured_ew_chain_joined() {
    // encoded words separated only by folding whitespace join without a space
    let (rem, parsed) = unstructured::<Intl>(b"=?us-ascii?Q?ab?= =?us-ascii?Q?cd?=").unwrap();
    assert_eq!(rem.len(), 0);
    assert_eq!(parsed, "abcd");
}

#[test]
fn unstructured_bad_encoding_kept() {
    // a payload that fails base64 decoding degrades to the raw text
    let (rem, parsed) = unstructured::<Intl>(b"=?us-ascii?B?!!!?=").unwrap();
    assert_eq!(rem.len(), 0);
    assert_eq!(parsed, "!!!");
}

#[test]
fn auth_command() {
    let (rem, v) = command::<Intl>(b"AUTH dGVzdA==\r\n").unwrap();
    assert_eq!(rem.len(), 0);
    assert_eq!(v, SMTPString::Atom("dGVzdA==".into()));
    assert!(command::<Intl>(b"EHLO x\r\n").is_err());
}

#[test]
fn empty_group() {
    let (rem, parsed) = reply_to::<Intl>(b"Undisclosed recipients:;\r\n").unwrap();
    assert_eq!(rem.len(), 0);
    match &parsed[..] {
        [Address::Group(g)] => {
            assert_eq!(g.dname, "Undisclosed recipients");
            assert!(g.members.is_empty());
        }
        other => panic!("unexpected parse: {:?}", other),
    }
}

#[test]
fn concat_qs_fragments() {
    let out = concat_qs(vec![
        QContent::Literal("a".into()),
        QContent::QP('x'),
        QContent::EncodedWord("é".into()),
    ]);
    assert_eq!(out, "axé");
}

#[test]
fn concat_words() {
    let out = _concat_atom_and_qs(vec![Text::Atom("a".into()), Text::Literal("b".into())]);
    assert_eq!(out, "a b");
    let out = _concat_atom_and_qs(vec![Text::Literal("a".into()), Text::Literal("b".into())]);
    assert_eq!(out, "ab");
    let out = _concat_atom_and_qs(vec![Text::Atom("a".into()), Text::Atom("b".into())]);
    assert_eq!(out, "a b");
}

#[test]
fn concat_comment_merging() {
    let merged = _concat_comment(vec![
        CommentContent::Text("a".into()),
        CommentContent::QP('b'),
        CommentContent::Comment(vec![]),
        CommentContent::Text("c".into()),
    ]);
    assert_eq!(merged.len(), 3);
    match &merged[0] {
        CommentContent::Text(t) => assert_eq!(t.as_str(), "ab"),
        _ => panic!("expected merged text first"),
    }
    match &merged[1] {
        CommentContent::Comment(inner) => assert!(inner.is_empty()),
        _ => panic!("expected the nested comment second"),
    }
    match &merged[2] {
        CommentContent::Text(t) => assert_eq!(t.as_str(), "c"),
        _ => panic!("expected trailing text last"),
    }
}

#[test]
fn legacy_ascii_decode() {
    let out = rustyknife::util::ascii_to_string(b"ok\x80ok");
    assert_eq!(out, "ok\u{fffd}ok");
}
