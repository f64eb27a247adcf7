//! Encoded-word decoding for non-ASCII header text.
//!
//! An encoded word is `=?charset?encoding?text?=`. The transfer encoding is
//! quoted-printable-like (`q`) or base64 (`b`); decoding is best effort: an
//! unknown charset falls back to ASCII with replacement characters, and a
//! payload that fails its transfer decoding is kept verbatim.

use vstd::prelude::*;

use crate::bytescan::{lemma_scan_elems, lemma_scan_is, scan};
use crate::util::{spec_ascii_chars, spec_hex_val, spec_legacy_chars, to_lower_byte};

verus! {

/// What `base64::decode` yields: the decoded bytes, or nothing when the
/// input is not valid base64.
pub uninterp spec fn b64_decode_of(text: Seq<u8>) -> Option<Seq<u8>>;

/// What the `encoding` crate's WHATWG-label lookup plus decode-with-
/// replacement yields for a charset label and a byte payload.
pub uninterp spec fn charset_decode_of(label: Seq<char>, bytes: Seq<u8>) -> Seq<char>;

/// Relies on `base64::decode` (the standard alphabet with padding): the
/// result is a function of the input bytes alone.
#[allow(deprecated)]
#[verifier::external_body]
fn b64_decode(text: &[u8]) -> (r: Option<Vec<u8>>)
    ensures
        match r {
            Some(v) => b64_decode_of(text@) == Some(v@),
            None => b64_decode_of(text@) is None,
        },
{
    base64::decode(text).ok()
}

/// Relies on `encoding::label::encoding_from_whatwg_label` and
/// `encoding::types::Encoding::decode` with the replacement trap: the label
/// is looked up per the WHATWG registry, an unknown label falls back to
/// ASCII, and decoding replaces errors instead of failing; the result is a
/// function of the label and the bytes alone.
#[verifier::external_body]
fn charset_decode(label: &str, bytes: &[u8]) -> (r: String)
    ensures
        r@ == charset_decode_of(label@, bytes@),
{
    let enc = encoding::label::encoding_from_whatwg_label(label).unwrap_or(
        encoding::all::ASCII,
    );
    match enc.decode(bytes, encoding::types::DecoderTrap::Replace) {
        Ok(s) => s,
        Err(_) => String::new(),
    }
}

/// The quoted-printable-like decoding: `=XX` becomes the byte `XX`, an
/// underscore becomes a space, and everything else is copied.
pub open spec fn spec_qp_decode(t: Seq<u8>) -> Seq<u8>
    decreases t.len(),
{
    if t.len() == 0 {
        Seq::empty()
    } else if t[0] == 61 && t.len() >= 3 && crate::util::is_hex_byte(t[1])
        && crate::util::is_hex_byte(t[2]) {
        seq![(spec_hex_val(t[1]) * 16 + spec_hex_val(t[2])) as u8] + spec_qp_decode(t.skip(3))
    } else if t[0] == 95 {
        seq![32u8] + spec_qp_decode(t.skip(1))
    } else {
        seq![t[0]] + spec_qp_decode(t.skip(1))
    }
}

/// Decode the modified quoted-printable encoding used in encoded words.
/// Every input decodes; the option mirrors the transfer-decoding seam.
pub fn decode_qp(input: &[u8]) -> (r: Option<Vec<u8>>)
    ensures
        match r {
            Some(v) => v@ == spec_qp_decode(input@),
            None => false,
        },
{
    let mut out: Vec<u8> = Vec::new();
    let mut i: usize = 0;
    proof {
        assert(input@.skip(0) =~= input@);
        assert(out@ + spec_qp_decode(input@) =~= spec_qp_decode(input@));
    }
    while i < input.len()
        invariant
            i <= input.len(),
            spec_qp_decode(input@) == out@ + spec_qp_decode(input@.skip(i as int)),
        decreases input.len() - i,
    {
        let ghost rest = input@.skip(i as int);
        proof {
            assert(rest[0] == input@[i as int]);
        }
        if input[i] == 61 && input.len() - i >= 3 && crate::util::is_hex(input[i + 1])
            && crate::util::is_hex(input[i + 2]) {
            let v = crate::util::hex_val(input[i + 1]) * 16 + crate::util::hex_val(input[i + 2]);
            proof {
                assert(rest.len() >= 3 && rest[1] == input@[i + 1] && rest[2] == input@[i + 2]);
                assert(rest.skip(3) =~= input@.skip(i + 3));
                assert(out@ + (seq![v] + spec_qp_decode(input@.skip(i + 3))) =~= (out@ + seq![v])
                    + spec_qp_decode(input@.skip(i + 3)));
            }
            out.push(v);
            i = i + 3;
        } else if input[i] == 95 {
            proof {
                assert(rest.skip(1) =~= input@.skip(i + 1));
                assert(out@ + (seq![32u8] + spec_qp_decode(input@.skip(i + 1))) =~= (out@ + seq![
                    32u8,
                ]) + spec_qp_decode(input@.skip(i + 1)));
            }
            out.push(32);
            i = i + 1;
        } else {
            proof {
                assert(rest.skip(1) =~= input@.skip(i + 1));
                assert(out@ + (seq![rest[0]] + spec_qp_decode(input@.skip(i + 1))) =~= (out@
                    + seq![input@[i as int]]) + spec_qp_decode(input@.skip(i + 1)));
            }
            out.push(input[i]);
            i = i + 1;
        }
    }
    proof {
        assert(input@.skip(input@.len() as int) =~= Seq::<u8>::empty());
        assert(out@ + Seq::<u8>::empty() =~= out@);
    }
    Some(out)
}

/// Encoded-word token byte: printable, excluding the tspecials.
pub open spec fn token_cls() -> spec_fn(u8) -> bool {
    |b: u8|
        33 <= b <= 126 && b != 40 && b != 41 && b != 60 && b != 62 && b != 64 && b != 44 && b
            != 59 && b != 58 && b != 92 && b != 34 && b != 47 && b != 91 && b != 93 && b != 63
            && b != 46 && b != 61
}

/// Decide membership in the encoded-word token class.
fn is_token(b: u8) -> (r: bool)
    ensures
        r == token_cls()(b),
{
    33 <= b && b <= 126 && b != 40 && b != 41 && b != 60 && b != 62 && b != 64 && b != 44 && b
        != 59 && b != 58 && b != 92 && b != 34 && b != 47 && b != 91 && b != 93 && b != 63 && b
        != 46 && b != 61
}

/// Encoded-text byte: printable except `?`.
pub open spec fn etext_cls() -> spec_fn(u8) -> bool {
    |b: u8| (33 <= b <= 62) || (64 <= b <= 126)
}

/// Decide membership in the encoded-text class.
fn is_etext(b: u8) -> (r: bool)
    ensures
        r == etext_cls()(b),
{
    (33 <= b && b <= 62) || (64 <= b && b <= 126)
}

/// The transfer decoding step: `q` is the quoted-printable form, `b` is
/// base64, anything else is unknown.
pub open spec fn spec_decode_text(enc: Seq<u8>, text: Seq<u8>) -> Option<Seq<u8>> {
    if enc.len() == 1 && to_lower_byte(enc[0]) == 113 {
        Some(spec_qp_decode(text))
    } else if enc.len() == 1 && to_lower_byte(enc[0]) == 98 {
        b64_decode_of(text)
    } else {
        None
    }
}

/// An encoded word at `i`, fully decoded: `=?charset?encoding?text?=` with
/// an optional language tag after the charset. The payload falls back to
/// the raw text when transfer decoding fails, and the charset conversion is
/// best effort.
pub open spec fn spec_encoded_word(s: Seq<u8>, i: int) -> Option<(int, Seq<char>)> {
    if i + 1 < s.len() && s[i] == 61 && s[i + 1] == 63 {
        let j1 = scan(s, i + 2, token_cls());
        if i + 2 < j1 <= s.len() {
            let p = if j1 < s.len() && s[j1] == 42 && scan(s, j1 + 1, token_cls()) > j1 + 1 {
                scan(s, j1 + 1, token_cls())
            } else {
                j1
            };
            if p < s.len() && s[p] == 63 {
                let j3 = scan(s, p + 1, token_cls());
                if p + 1 < j3 <= s.len() && j3 < s.len() && s[j3] == 63 {
                    let j4 = scan(s, j3 + 1, etext_cls());
                    if j3 + 1 < j4 <= s.len() && j4 + 1 < s.len() && s[j4] == 63 && s[j4 + 1]
                        == 61 {
                        let charset = spec_ascii_chars(s.subrange(i + 2, j1));
                        let encoding = s.subrange(p + 1, j3);
                        let text = s.subrange(j3 + 1, j4);
                        let payload = match spec_decode_text(encoding, text) {
                            Some(b) => b,
                            None => text,
                        };
                        Some((j4 + 2, charset_decode_of(charset, payload)))
                    } else {
                        None
                    }
                } else {
                    None
                }
            } else {
                None
            }
        } else {
            None
        }
    } else {
        None
    }
}

/// Scan a token run starting at `pos`.
fn scan_token(input: &[u8], pos: usize) -> (r: usize)
    requires
        pos <= input.len(),
    ensures
        r == scan(input@, pos as int, token_cls()),
        pos <= r <= input.len(),
{
    let mut j: usize = pos;
    while j < input.len() && is_token(input[j])
        invariant
            pos <= j <= input.len(),
            forall|k: int| pos <= k < j ==> token_cls()(input@[k]),
        decreases input.len() - j,
    {
        j = j + 1;
    }
    proof {
        lemma_scan_is(input@, pos as int, j as int, token_cls());
    }
    j
}

/// Scan an encoded-text run starting at `pos`.
fn scan_etext(input: &[u8], pos: usize) -> (r: usize)
    requires
        pos <= input.len(),
    ensures
        r == scan(input@, pos as int, etext_cls()),
        pos <= r <= input.len(),
{
    let mut j: usize = pos;
    while j < input.len() && is_etext(input[j])
        invariant
            pos <= j <= input.len(),
            forall|k: int| pos <= k < j ==> etext_cls()(input@[k]),
        decreases input.len() - j,
    {
        j = j + 1;
    }
    proof {
        lemma_scan_is(input@, pos as int, j as int, etext_cls());
    }
    j
}

/// Parse and decode an encoded word at `pos`.
pub fn encoded_word(input: &[u8], pos: usize) -> (r: Option<(usize, String)>)
    requires
        pos <= input.len(),
    ensures
        match r {
            Some((np, v)) => spec_encoded_word(input@, pos as int) == Some((np as int, v@))
                && pos < np <= input.len(),
            None => spec_encoded_word(input@, pos as int) is None,
        },
{
    if !(pos < input.len() && pos + 1 < input.len() && input[pos] == 61 && input[pos + 1] == 63) {
        return None;
    }
    let j1 = scan_token(input, pos + 2);
    if j1 == pos + 2 {
        return None;
    }
    let p = if j1 < input.len() && input[j1] == 42 {
        let j2 = scan_token(input, j1 + 1);
        if j2 > j1 + 1 {
            j2
        } else {
            j1
        }
    } else {
        j1
    };
    if !(p < input.len() && input[p] == 63) {
        return None;
    }
    let j3 = scan_token(input, p + 1);
    if j3 == p + 1 || !(j3 < input.len() && input[j3] == 63) {
        return None;
    }
    let j4 = scan_etext(input, j3 + 1);
    if j4 == j3 + 1 || !(j4 < input.len() && j4 + 1 < input.len() && input[j4] == 63 && input[j4
        + 1] == 61) {
        return None;
    }
    let charset_bytes = vstd::slice::slice_subrange(input, pos + 2, j1);
    proof {
        lemma_scan_elems(input@, pos + 2, token_cls());
        lemma_token_ascii(input@, pos + 2, j1 as int);
    }
    let charset = crate::util::ascii_to_string(charset_bytes);
    let enc = vstd::slice::slice_subrange(input, p + 1, j3);
    let text = vstd::slice::slice_subrange(input, j3 + 1, j4);
    let payload: Vec<u8> = if enc.len() == 1 && crate::util::to_lower(enc[0]) == 113 {
        match decode_qp(text) {
            Some(v) => v,
            None => vstd::slice::slice_to_vec(text),
        }
    } else if enc.len() == 1 && crate::util::to_lower(enc[0]) == 98 {
        match b64_decode(text) {
            Some(v) => v,
            None => vstd::slice::slice_to_vec(text),
        }
    } else {
        vstd::slice::slice_to_vec(text)
    };
    let value = charset_decode(charset.as_str(), payload.as_slice());
    Some((j4 + 2, value))
}

/// Bytes inside a token scan are ASCII.
proof fn lemma_token_ascii(s: Seq<u8>, i: int, j: int)
    requires
        0 <= i <= j <= s.len(),
        forall|k: int| i <= k < j ==> token_cls()(s[k]),
    ensures
        spec_legacy_chars(s.subrange(i, j)) =~= spec_ascii_chars(s.subrange(i, j)),
{
}

} // verus!
