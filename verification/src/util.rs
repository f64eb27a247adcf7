//! Shared text utilities: octet decoding under a policy, case-insensitive
//! byte matching, and literal tag matching.

use vstd::prelude::*;
use vstd::utf8::{decode_utf8, valid_utf8};

verus! {

/// Errors surfaced by the top-level parse entrypoints.
#[derive(Clone, Copy, Debug, PartialEq, Eq, Structural)]
pub enum ParseError {
    /// The grammar could not match any prefix of the input.
    GrammarMismatch,
    /// The grammar matched a proper prefix, but the whole input was required.
    TrailingInput,
}

/// Parse outcome: unconsumed remainder plus the parsed value, or a failure.
pub type ParseResult<'a, O> = Result<(&'a [u8], O), ParseError>;

/// What `String::from_utf8_lossy` yields on input that is not valid UTF-8.
pub uninterp spec fn utf8_lossy_of(bytes: Seq<u8>) -> Seq<char>;

/// Each byte of an ASCII-only run read as one character.
pub open spec fn spec_ascii_chars(bytes: Seq<u8>) -> Seq<char> {
    bytes.map_values(|b: u8| b as char)
}

/// Each byte read as one character, with bytes above 127 replaced by the
/// Unicode replacement character.
pub open spec fn spec_legacy_chars(bytes: Seq<u8>) -> Seq<char> {
    bytes.map_values(|b: u8| if b < 128 { b as char } else { '\u{fffd}' })
}

/// The text that a run of raw octets denotes under the given policy.
pub open spec fn spec_decode_octets(intl: bool, bytes: Seq<u8>) -> Seq<char> {
    if intl {
        if valid_utf8(bytes) {
            decode_utf8(bytes)
        } else {
            utf8_lossy_of(bytes)
        }
    } else {
        spec_legacy_chars(bytes)
    }
}

/// Relies on `Iterator::collect` for `String`: collecting characters yields
/// the string made of exactly those characters.
#[verifier::external_body]
fn chars_to_string(v: &Vec<char>) -> (r: String)
    ensures
        r@ == v@,
{
    v.iter().collect()
}

/// Relies on `String::from_utf8_lossy`: valid UTF-8 decodes to the
/// corresponding characters; invalid sequences are replaced by replacement
/// characters, here left under a name.
#[verifier::external_body]
fn utf8_lossy(bytes: &[u8]) -> (r: String)
    ensures
        valid_utf8(bytes@) ==> r@ == decode_utf8(bytes@),
        !valid_utf8(bytes@) ==> r@ == utf8_lossy_of(bytes@),
{
    String::from_utf8_lossy(bytes).into_owned()
}

/// The one-character string holding `c`.
pub fn char_string(c: char) -> (r: String)
    ensures
        r@ == seq![c],
{
    let mut v: Vec<char> = Vec::new();
    v.push(c);
    proof {
        assert(v@ =~= seq![c]);
    }
    chars_to_string(&v)
}

/// Decode bytes reading each one as a character, replacing every octet above
/// 127 with the Unicode replacement character.
pub fn ascii_to_string(i: &[u8]) -> (r: String)
    ensures
        r@ == spec_legacy_chars(i@),
{
    let mut v: Vec<char> = Vec::new();
    let mut j: usize = 0;
    while j < i.len()
        invariant
            j <= i.len(),
            v@ == spec_legacy_chars(i@.subrange(0, j as int)),
        decreases i.len() - j,
    {
        let b = i[j];
        if b < 128 {
            v.push(b as char);
        } else {
            v.push('\u{fffd}');
        }
        j = j + 1;
        proof {
            assert(i@.subrange(0, j as int) =~= i@.subrange(0, j - 1).push(i@[j - 1]));
            assert(v@ =~= spec_legacy_chars(i@.subrange(0, j as int)));
        }
    }
    proof {
        assert(i@.subrange(0, i@.len() as int) =~= i@);
    }
    chars_to_string(&v)
}

/// Decode a run of raw octets under the policy selected for the parse.
pub fn decode_octets(intl: bool, bytes: &[u8]) -> (r: String)
    ensures
        r@ == spec_decode_octets(intl, bytes@),
{
    if intl {
        utf8_lossy(bytes)
    } else {
        ascii_to_string(bytes)
    }
}

/// Decide whether a byte belongs to the atom character class under a
/// policy: the ASCII atom bytes, plus octets above 127 under the
/// internationalized policy.
pub fn is_atext_ext(b: u8, intl: bool) -> (r: bool)
    ensures
        r == (crate::rfc5234::is_atext_byte(b) || (intl && b >= 128)),
{
    crate::rfc5234::is_atext(b) || (intl && b >= 128)
}

/// ASCII decimal digit.
pub open spec fn is_digit_byte(b: u8) -> bool {
    48 <= b <= 57
}

/// Decide whether a byte is an ASCII decimal digit.
pub fn is_digit(b: u8) -> (r: bool)
    ensures
        r == is_digit_byte(b),
{
    48 <= b && b <= 57
}

/// ASCII hexadecimal digit.
pub open spec fn is_hex_byte(b: u8) -> bool {
    48 <= b <= 57 || 65 <= b <= 70 || 97 <= b <= 102
}

/// Decide whether a byte is an ASCII hexadecimal digit.
pub fn is_hex(b: u8) -> (r: bool)
    ensures
        r == is_hex_byte(b),
{
    (48 <= b && b <= 57) || (65 <= b && b <= 70) || (97 <= b && b <= 102)
}

/// Numeric value of a hexadecimal digit byte.
pub open spec fn spec_hex_val(b: u8) -> u8 {
    if 48 <= b <= 57 {
        (b - 48) as u8
    } else if 65 <= b <= 70 {
        (b - 55) as u8
    } else if 97 <= b <= 102 {
        (b - 87) as u8
    } else {
        0
    }
}

/// Numeric value of a hexadecimal digit byte.
pub fn hex_val(b: u8) -> (r: u8)
    requires
        is_hex_byte(b),
    ensures
        r == spec_hex_val(b),
        r < 16,
{
    if 48 <= b && b <= 57 {
        b - 48
    } else if 65 <= b && b <= 70 {
        b - 55
    } else {
        b - 87
    }
}

/// ASCII upper-case letters folded to lower case; everything else unchanged.
pub open spec fn to_lower_byte(b: u8) -> u8 {
    if 65 <= b <= 90 {
        (b + 32) as u8
    } else {
        b
    }
}

/// Fold one byte to ASCII lower case.
pub fn to_lower(b: u8) -> (r: u8)
    ensures
        r == to_lower_byte(b),
{
    if 65 <= b && b <= 90 {
        b + 32
    } else {
        b
    }
}

/// Two byte strings are equal up to ASCII case.
pub open spec fn spec_ci_eq_bytes(a: Seq<u8>, b: Seq<u8>) -> bool {
    a.len() == b.len() && forall|k: int|
        0 <= k < a.len() ==> to_lower_byte(#[trigger] a[k]) == to_lower_byte(b[k])
}

/// Compare two byte strings up to ASCII case.
pub fn bytes_ci_eq(a: &[u8], b: &[u8]) -> (r: bool)
    ensures
        r == spec_ci_eq_bytes(a@, b@),
{
    if a.len() != b.len() {
        return false;
    }
    let mut k: usize = 0;
    while k < a.len()
        invariant
            k <= a.len(),
            a@.len() == b@.len(),
            forall|q: int| 0 <= q < k ==> to_lower_byte(#[trigger] a@[q]) == to_lower_byte(b@[q]),
        decreases a.len() - k,
    {
        if to_lower(a[k]) != to_lower(b[k]) {
            return false;
        }
        k = k + 1;
    }
    true
}

/// `lit` occurs at position `i` of `s`, compared case-insensitively.
pub open spec fn spec_ci_match(s: Seq<u8>, i: int, lit: Seq<u8>) -> bool {
    &&& i + lit.len() <= s.len()
    &&& forall|k: int| 0 <= k < lit.len() ==> to_lower_byte(s[i + k]) == to_lower_byte(lit[k])
}

/// `lit` occurs at position `i` of `s`, byte for byte.
pub open spec fn spec_tag_match(s: Seq<u8>, i: int, lit: Seq<u8>) -> bool {
    &&& i + lit.len() <= s.len()
    &&& forall|k: int| 0 <= k < lit.len() ==> s[i + k] == lit[k]
}

/// Match a literal tag case-insensitively, returning the position after it.
pub fn tag_ci(input: &[u8], pos: usize, lit: &[u8]) -> (r: Option<usize>)
    requires
        pos <= input.len(),
    ensures
        match r {
            Some(np) => spec_ci_match(input@, pos as int, lit@) && np == pos + lit@.len(),
            None => !spec_ci_match(input@, pos as int, lit@),
        },
{
    if lit.len() > input.len() - pos {
        return None;
    }
    let mut k: usize = 0;
    while k < lit.len()
        invariant
            pos + lit.len() <= input.len(),
            k <= lit.len(),
            forall|j: int|
                0 <= j < k ==> to_lower_byte(input@[pos + j]) == to_lower_byte(lit@[j]),
        decreases lit.len() - k,
    {
        if to_lower(input[pos + k]) != to_lower(lit[k]) {
            return None;
        }
        k = k + 1;
    }
    Some(pos + lit.len())
}

/// Match a literal tag exactly, returning the position after it.
pub fn tag(input: &[u8], pos: usize, lit: &[u8]) -> (r: Option<usize>)
    requires
        pos <= input.len(),
    ensures
        match r {
            Some(np) => spec_tag_match(input@, pos as int, lit@) && np == pos + lit@.len(),
            None => !spec_tag_match(input@, pos as int, lit@),
        },
{
    if lit.len() > input.len() - pos {
        return None;
    }
    let mut k: usize = 0;
    while k < lit.len()
        invariant
            pos + lit.len() <= input.len(),
            k <= lit.len(),
            forall|j: int| 0 <= j < k ==> input@[pos + j] == lit@[j],
        decreases lit.len() - k,
    {
        if input[pos + k] != lit[k] {
            return None;
        }
        k = k + 1;
    }
    Some(pos + lit.len())
}

/// After an ASCII byte of a valid UTF-8 sequence, the next position is a
/// character boundary.
pub proof fn lemma_boundary_after_ascii(b: Seq<u8>, i: int)
    requires
        valid_utf8(b),
        0 <= i < b.len(),
        b[i] < 128,
    ensures
        vstd::utf8::is_char_boundary(b, i + 1),
    decreases b.len(),
{
    let l = vstd::utf8::length_of_first_scalar(b);
    let rest = vstd::utf8::pop_first_scalar(b);
    if i == 0 {
        assert(vstd::utf8::is_leading_byte_width_1(b[0]));
        assert(l == 1);
        assert(vstd::utf8::is_char_boundary(b, 1) == vstd::utf8::is_char_boundary(rest, 0));
    } else {
        assert(1 <= l <= 4);
        if i < l {
            // within the first scalar every byte after the leading one is a
            // continuation byte, which is at least 128
            assert(vstd::utf8::is_continuation_byte(b[i]));
            assert(false);
        } else {
            assert(rest[i - l] == b[i]);
            lemma_boundary_after_ascii(rest, i - l);
            assert(vstd::utf8::is_char_boundary(b, i + 1) == vstd::utf8::is_char_boundary(
                rest,
                i + 1 - l,
            ));
        }
    }
}

} // verus!
