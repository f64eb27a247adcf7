//! Core ABNF character classes shared by every grammar layer.

use vstd::prelude::*;

verus! {

/// True exactly of the ASCII bytes that may appear in an atom.
pub open spec fn is_atext_byte(b: u8) -> bool {
    ||| b == 33
    ||| 35 <= b <= 39
    ||| b == 42 || b == 43
    ||| b == 45
    ||| 47 <= b <= 57
    ||| b == 61 || b == 63
    ||| 65 <= b <= 90
    ||| 94 <= b <= 126
}

/// Decide whether a byte belongs to the atom character class.
pub fn is_atext(b: u8) -> (r: bool)
    ensures
        r == is_atext_byte(b),
{
    b == 33 || (35 <= b && b <= 39) || b == 42 || b == 43 || b == 45 || (47 <= b && b <= 57)
        || b == 61 || b == 63 || (65 <= b && b <= 90) || (94 <= b && b <= 126)
}

/// Space or horizontal tab.
pub open spec fn is_wsp_byte(b: u8) -> bool {
    b == 32 || b == 9
}

/// Visible (printing) character.
pub open spec fn is_vchar_byte(b: u8) -> bool {
    33 <= b <= 126
}

/// Decide whether a byte is whitespace (space or tab).
pub fn is_wsp(b: u8) -> (r: bool)
    ensures
        r == is_wsp_byte(b),
{
    b == 32 || b == 9
}

/// Decide whether a byte is a visible character.
pub fn is_vchar(b: u8) -> (r: bool)
    ensures
        r == is_vchar_byte(b),
{
    33 <= b && b <= 126
}

/// A CRLF line terminator starts at `i`.
pub open spec fn spec_crlf_at(s: Seq<u8>, i: int) -> bool {
    i + 2 <= s.len() && s[i] == 13 && s[i + 1] == 10
}

/// Match a CRLF line terminator, returning the position after it.
pub fn crlf(input: &[u8], pos: usize) -> (r: Option<usize>)
    requires
        pos <= input.len(),
    ensures
        match r {
            Some(np) => spec_crlf_at(input@, pos as int) && np == pos + 2,
            None => !spec_crlf_at(input@, pos as int),
        },
{
    if pos < input.len() && pos + 1 < input.len() && input[pos] == 13 && input[pos + 1] == 10 {
        Some(pos + 2)
    } else {
        None
    }
}

} // verus!
