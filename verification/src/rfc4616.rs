//! The SMTP AUTH command argument.

use vstd::prelude::*;

use crate::behaviour::UTF8Policy;
use crate::rfc5234::spec_crlf_at;
use crate::rfc5321::{spec_smtp_string, SMTPString, SpecSMTPString, _smtp_string};
use crate::util::{spec_ci_match, tag_ci, ParseError, ParseResult};

verus! {

/// The bytes of `AUTH `.
pub open spec fn kw_auth() -> Seq<u8> {
    seq![65u8, 85u8, 84u8, 72u8, 32u8]
}

/// An AUTH command: `AUTH ` (case-insensitive), an SMTP string, and CRLF.
pub open spec fn spec_auth_command(s: Seq<u8>, intl: bool) -> Option<(int, SpecSMTPString)> {
    if spec_ci_match(s, 0, kw_auth()) {
        match spec_smtp_string(s, 5, intl) {
            Some((j, v)) => if spec_crlf_at(s, j) {
                Some((j + 2, v))
            } else {
                None
            },
            None => None,
        }
    } else {
        None
    }
}

/// Parse an SMTP AUTH command.
pub fn command<P: UTF8Policy>(input: &[u8]) -> (r: ParseResult<SMTPString>)
    ensures
        match r {
            Ok((rem, v)) => match spec_auth_command(input@, P::intl()) {
                Some((np, sv)) => v@ == sv && rem@ == input@.subrange(np, input@.len() as int),
                None => false,
            },
            Err(e) => e == ParseError::GrammarMismatch && spec_auth_command(
                input@,
                P::intl(),
            ) is None,
        },
{
    let kw: [u8; 5] = [65u8, 85u8, 84u8, 72u8, 32u8];
    proof {
        assert(kw@ =~= kw_auth());
    }
    let j0 = match tag_ci(input, 0, kw.as_slice()) {
        Some(x) => x,
        None => {
            return Err(ParseError::GrammarMismatch);
        },
    };
    let (j, v) = match _smtp_string(input, j0, P::is_intl()) {
        Some(x) => x,
        None => {
            return Err(ParseError::GrammarMismatch);
        },
    };
    match crate::rfc5234::crlf(input, j) {
        Some(end) => Ok((vstd::slice::slice_subrange(input, end, input.len()), v)),
        None => Err(ParseError::GrammarMismatch),
    }
}

} // verus!
