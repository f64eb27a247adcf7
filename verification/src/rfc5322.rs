//! Parsers for Internet Message Format address headers.
//!
//! Comments are ignored; encoded-word decoding is applied inside display
//! names, quoted strings and unstructured text.

use vstd::prelude::*;

use crate::behaviour::UTF8Policy;
use crate::bytescan::{lemma_scan_bounds, lemma_scan_elems, lemma_scan_is, scan};
use crate::rfc5234::{is_wsp, is_wsp_byte, spec_crlf_at};
use crate::types::{
    AddressLiteral, DotAtom, Domain, DomainPart, LocalPart, Mailbox as SMTPMailbox, QuotedString,
    SpecAddressLiteral, SpecDomainPart, SpecLocalPart, SpecMailbox,
};
use crate::util::{
    ascii_to_string, decode_octets, is_atext_ext, spec_ascii_chars, spec_decode_octets,
    spec_legacy_chars, ParseError, ParseResult,
};

verus! {

/// The whitespace class, as a scan predicate.
pub open spec fn wsp_cls() -> spec_fn(u8) -> bool {
    |b: u8| is_wsp_byte(b)
}

/// End of folding whitespace at `i`: optional whitespace and CRLF, then one
/// or more whitespace bytes; or just one or more whitespace bytes.
pub open spec fn spec_fws_end(s: Seq<u8>, i: int) -> Option<int> {
    let a = scan(s, i, wsp_cls());
    if spec_crlf_at(s, a) {
        let b = scan(s, a + 2, wsp_cls());
        if b > a + 2 {
            Some(b)
        } else {
            None
        }
    } else {
        if a > i {
            Some(a)
        } else {
            None
        }
    }
}

/// The whitespace bytes that folding whitespace at `i` denotes: the line
/// terminator is dropped, the whitespace around it is kept.
pub open spec fn spec_fws_bytes(s: Seq<u8>, i: int) -> Seq<u8> {
    let a = scan(s, i, wsp_cls());
    if spec_crlf_at(s, a) {
        let b = scan(s, a + 2, wsp_cls());
        s.subrange(i, a) + s.subrange(a + 2, b)
    } else {
        s.subrange(i, a)
    }
}

/// The whitespace text that folding whitespace at `i` denotes.
pub open spec fn spec_fws_val(s: Seq<u8>, i: int) -> Seq<char> {
    spec_ascii_chars(spec_fws_bytes(s, i))
}

/// End of optional folding whitespace: the input position moves only when
/// folding whitespace is present.
pub open spec fn spec_ofws_end(s: Seq<u8>, i: int) -> int {
    match spec_fws_end(s, i) {
        Some(e) => e,
        None => i,
    }
}

/// The whitespace bytes of optional folding whitespace.
pub open spec fn spec_ofws_bytes(s: Seq<u8>, i: int) -> Seq<u8> {
    match spec_fws_end(s, i) {
        Some(_) => spec_fws_bytes(s, i),
        None => Seq::empty(),
    }
}

/// The whitespace text of optional folding whitespace.
pub open spec fn spec_ofws_val(s: Seq<u8>, i: int) -> Seq<char> {
    match spec_fws_end(s, i) {
        Some(_) => spec_fws_val(s, i),
        None => Seq::empty(),
    }
}

/// Scan a whitespace run starting at `pos`.
fn scan_wsp(input: &[u8], pos: usize) -> (r: usize)
    requires
        pos <= input.len(),
    ensures
        r == scan(input@, pos as int, wsp_cls()),
        pos <= r <= input.len(),
{
    let mut j: usize = pos;
    while j < input.len() && is_wsp(input[j])
        invariant
            pos <= j <= input.len(),
            forall|k: int| pos <= k < j ==> wsp_cls()(input@[k]),
        decreases input.len() - j,
    {
        j = j + 1;
    }
    proof {
        lemma_scan_is(input@, pos as int, j as int, wsp_cls());
    }
    j
}

/// Parse folding whitespace at `pos`, yielding the position after it and
/// the whitespace text it denotes.
pub fn fws(input: &[u8], pos: usize) -> (r: Option<(usize, String)>)
    requires
        pos <= input.len(),
    ensures
        match r {
            Some((np, v)) => spec_fws_end(input@, pos as int) == Some(np as int) && v@
                == spec_fws_val(input@, pos as int) && pos < np <= input.len(),
            None => spec_fws_end(input@, pos as int) is None,
        },
{
    let a = scan_wsp(input, pos);
    if a < input.len() && a + 1 < input.len() && input[a] == 13 && input[a + 1] == 10 {
        let b = scan_wsp(input, a + 2);
        if b > a + 2 {
            let mut bytes: Vec<u8> = Vec::new();
            let mut k: usize = pos;
            while k < a
                invariant
                    pos <= k <= a <= input.len(),
                    bytes@ =~= input@.subrange(pos as int, k as int),
                decreases a - k,
            {
                bytes.push(input[k]);
                k = k + 1;
                proof {
                    assert(bytes@ =~= input@.subrange(pos as int, k as int));
                }
            }
            let mut k2: usize = a + 2;
            while k2 < b
                invariant
                    a + 2 <= k2 <= b <= input.len(),
                    bytes@ =~= input@.subrange(pos as int, a as int) + input@.subrange(
                        a + 2,
                        k2 as int,
                    ),
                decreases b - k2,
            {
                bytes.push(input[k2]);
                k2 = k2 + 1;
                proof {
                    assert(bytes@ =~= input@.subrange(pos as int, a as int) + input@.subrange(
                        a + 2,
                        k2 as int,
                    ));
                }
            }
            let v = ascii_to_string(bytes.as_slice());
            proof {
                lemma_wsp_ascii(input@, pos as int, a as int);
                lemma_wsp_ascii(input@, a + 2, b as int);
                assert(spec_legacy_chars(bytes@) =~= spec_ascii_chars(bytes@));
            }
            Some((b, v))
        } else {
            None
        }
    } else {
        if a > pos {
            let v = ascii_to_string(vstd::slice::slice_subrange(input, pos, a));
            proof {
                lemma_wsp_ascii(input@, pos as int, a as int);
                assert(spec_legacy_chars(input@.subrange(pos as int, a as int))
                    =~= spec_ascii_chars(input@.subrange(pos as int, a as int)));
            }
            Some((a, v))
        } else {
            None
        }
    }
}

/// Bytes inside a whitespace scan are ASCII.
proof fn lemma_wsp_ascii(s: Seq<u8>, i: int, j: int)
    requires
        0 <= i <= j <= s.len(),
        j == scan(s, i, wsp_cls()) || (forall|k: int| i <= k < j ==> wsp_cls()(s[k])),
    ensures
        forall|k: int| i <= k < j ==> s[k] < 128,
        spec_legacy_chars(s.subrange(i, j)) =~= spec_ascii_chars(s.subrange(i, j)),
{
    if j == scan(s, i, wsp_cls()) {
        lemma_scan_elems(s, i, wsp_cls());
    }
}

/// Parse optional folding whitespace at `pos`.
pub fn ofws(input: &[u8], pos: usize) -> (r: (usize, String))
    requires
        pos <= input.len(),
    ensures
        r.0 == spec_ofws_end(input@, pos as int),
        r.1@ == spec_ofws_val(input@, pos as int),
        pos <= r.0 <= input.len(),
{
    match fws(input, pos) {
        Some((np, v)) => (np, v),
        None => (pos, String::new()),
    }
}

/// Comment text byte: printable except parentheses and the backslash.
pub open spec fn ctext_cls() -> spec_fn(u8) -> bool {
    |b: u8| (33 <= b <= 39) || (42 <= b <= 91) || (93 <= b <= 126)
}

/// Decide membership in the comment text class.
fn is_ctext(b: u8) -> (r: bool)
    ensures
        r == ctext_cls()(b),
{
    (33 <= b && b <= 39) || (42 <= b && b <= 91) || (93 <= b && b <= 126)
}

/// A quoted pair starts at `i`: a backslash followed by a visible or
/// whitespace character.
pub open spec fn spec_quoted_pair_at(s: Seq<u8>, i: int) -> bool {
    i + 1 < s.len() && s[i] == 92 && (crate::rfc5234::is_vchar_byte(s[i + 1]) || is_wsp_byte(
        s[i + 1],
    ))
}

/// End of one comment content item at `p`: a text run, a quoted pair, or a
/// nested comment.
pub open spec fn spec_ccontent_end(s: Seq<u8>, p: int) -> Option<int>
    decreases s.len() - p, 1int when 0 <= p <= s.len()
{
    if p < s.len() && ctext_cls()(s[p]) {
        let j = scan(s, p, ctext_cls());
        if p < j <= s.len() {
            Some(j)
        } else {
            None
        }
    } else if spec_quoted_pair_at(s, p) {
        Some(p + 2)
    } else {
        spec_comment_end(s, p)
    }
}

/// End of a comment at `i`: an opening parenthesis, content items each
/// preceded by optional folding whitespace, optional folding whitespace,
/// and a closing parenthesis.
pub open spec fn spec_comment_end(s: Seq<u8>, i: int) -> Option<int>
    decreases s.len() - i, 0int when 0 <= i <= s.len()
{
    if i < s.len() && s[i] == 40 {
        spec_comment_items(s, i + 1)
    } else {
        None
    }
}

/// End of the remaining comment items starting at `j` (inside the
/// parentheses), up to and including the closing parenthesis.
pub open spec fn spec_comment_items(s: Seq<u8>, j: int) -> Option<int>
    decreases s.len() - j, 2int when 0 <= j <= s.len()
{
    let p = spec_ofws_end(s, j);
    if j <= p <= s.len() {
        match spec_ccontent_end(s, p) {
            Some(e) => if j < e <= s.len() {
                spec_comment_items(s, e)
            } else {
                None
            },
            None => if p < s.len() && s[p] == 41 {
                Some(p + 1)
            } else {
                None
            },
        }
    } else {
        None
    }
}

/// One parsed piece of a comment.
pub enum CommentContent {
    /// A run of literal text, escaped characters already unescaped.
    Text(String),
    /// A nested comment.
    Comment(Vec<CommentContent>),
    /// A single character that stood behind a backslash.
    QP(char),
}

/// Specification-level comment piece. Nested comments are carried through
/// unchanged, so they appear here as the parsed values themselves.
pub enum SpecCommentContent {
    /// A run of literal text.
    Text(Seq<char>),
    /// A nested comment, as parsed.
    Comment(Vec<CommentContent>),
    /// An escaped character.
    QP(char),
}

impl View for CommentContent {
    type V = SpecCommentContent;

    open spec fn view(&self) -> SpecCommentContent {
        match self {
            CommentContent::Text(t) => SpecCommentContent::Text(t@),
            CommentContent::Comment(v) => SpecCommentContent::Comment(*v),
            CommentContent::QP(c) => SpecCommentContent::QP(*c),
        }
    }
}

/// The merge underlying [`_concat_comment`]: pending text `acc` absorbs
/// literal text and escaped characters; a nested comment flushes the
/// pending text and stays a node of its own.
pub open spec fn spec_concat_comment_acc(
    items: Seq<SpecCommentContent>,
    acc: Seq<char>,
) -> Seq<SpecCommentContent>
    decreases items.len(),
{
    if items.len() == 0 {
        if acc.len() == 0 {
            Seq::empty()
        } else {
            seq![SpecCommentContent::Text(acc)]
        }
    } else {
        match items[0] {
            SpecCommentContent::Text(t) => spec_concat_comment_acc(items.drop_first(), acc + t),
            SpecCommentContent::QP(c) => spec_concat_comment_acc(items.drop_first(), acc.push(c)),
            SpecCommentContent::Comment(v) => (if acc.len() == 0 {
                Seq::empty()
            } else {
                seq![SpecCommentContent::Text(acc)]
            }) + seq![SpecCommentContent::Comment(v)] + spec_concat_comment_acc(
                items.drop_first(),
                Seq::empty(),
            ),
        }
    }
}

/// Merged form of a comment item list: adjacent literal text and escaped
/// characters fuse into single text nodes; nested comments remain distinct.
pub open spec fn spec_concat_comment(items: Seq<SpecCommentContent>) -> Seq<SpecCommentContent> {
    spec_concat_comment_acc(items, Seq::empty())
}

/// A merged comment item list: escaped characters have been absorbed, no
/// text node is empty, and no two text nodes stand next to each other.
pub open spec fn spec_merged_shape(s: Seq<SpecCommentContent>) -> bool {
    &&& forall|k: int| 0 <= k < s.len() ==> !(#[trigger] s[k] is QP)
    &&& forall|k: int|
        0 <= k < s.len() ==> match #[trigger] s[k] {
            SpecCommentContent::Text(t) => t.len() > 0,
            _ => true,
        }
    &&& forall|k: int|
        0 <= k < s.len() - 1 ==> !(#[trigger] s[k] is Text && s[k + 1] is Text)
}

/// The merge always yields a list in merged shape, whatever the pending
/// text.
proof fn lemma_concat_comment_shape(items: Seq<SpecCommentContent>, acc: Seq<char>)
    ensures
        spec_merged_shape(spec_concat_comment_acc(items, acc)),
    decreases items.len(),
{
    let r = spec_concat_comment_acc(items, acc);
    if items.len() == 0 {
    } else {
        match items[0] {
            SpecCommentContent::Text(t) => {
                lemma_concat_comment_shape(items.drop_first(), acc + t);
            },
            SpecCommentContent::QP(c) => {
                lemma_concat_comment_shape(items.drop_first(), acc.push(c));
            },
            SpecCommentContent::Comment(v) => {
                lemma_concat_comment_shape(items.drop_first(), Seq::empty());
                let flushed: Seq<SpecCommentContent> = if acc.len() == 0 {
                    Seq::empty()
                } else {
                    seq![SpecCommentContent::Text(acc)]
                };
                let rest = spec_concat_comment_acc(items.drop_first(), Seq::empty());
                assert(r == flushed + seq![SpecCommentContent::Comment(v)] + rest);
                assert forall|k: int| 0 <= k < r.len() implies !(#[trigger] r[k] is QP) by {
                    if k < flushed.len() {
                        assert(r[k] == flushed[k]);
                    } else if k == flushed.len() {
                        assert(r[k] == SpecCommentContent::Comment(v));
                    } else {
                        assert(r[k] == rest[k - flushed.len() - 1]);
                    }
                }
                assert forall|k: int| 0 <= k < r.len() implies match #[trigger] r[k] {
                    SpecCommentContent::Text(t) => t.len() > 0,
                    _ => true,
                } by {
                    if k < flushed.len() {
                        assert(r[k] == flushed[k]);
                    } else if k == flushed.len() {
                        assert(r[k] == SpecCommentContent::Comment(v));
                    } else {
                        assert(r[k] == rest[k - flushed.len() - 1]);
                    }
                }
                assert forall|k: int|
                    0 <= k < r.len() - 1 implies !(#[trigger] r[k] is Text && r[k + 1]
                    is Text) by {
                    if k < flushed.len() {
                        assert(r[k] == flushed[k]);
                        assert(r[k + 1] == SpecCommentContent::Comment(v));
                    } else if k == flushed.len() {
                        assert(r[k] == SpecCommentContent::Comment(v));
                    } else {
                        assert(r[k] == rest[k - flushed.len() - 1]);
                        assert(r[k + 1] == rest[k - flushed.len()]);
                    }
                }
            },
        }
    }
}

/// What the merge yields is always in merged shape.
pub proof fn lemma_concat_comment_merged(items: Seq<SpecCommentContent>)
    ensures
        spec_merged_shape(spec_concat_comment(items)),
{
    lemma_concat_comment_shape(items, Seq::empty());
}

/// Merge adjacent literal-text fragments of a comment, keeping nested
/// comments as distinct nodes.
pub fn _concat_comment(comments: Vec<CommentContent>) -> (r: Vec<CommentContent>)
    ensures
        r@.map_values(|c: CommentContent| c@) == spec_concat_comment(
            comments@.map_values(|c: CommentContent| c@),
        ),
        spec_merged_shape(r@.map_values(|c: CommentContent| c@)),
{
    proof {
        lemma_concat_comment_merged(comments@.map_values(|c: CommentContent| c@));
    }
    let ghost origv = comments@.map_values(|c: CommentContent| c@);
    let mut src = comments;
    let mut out: Vec<CommentContent> = Vec::new();
    let mut acc = String::new();
    proof {
        assert(out@.map_values(|c: CommentContent| c@) =~= Seq::<SpecCommentContent>::empty());
        assert(Seq::<SpecCommentContent>::empty() + spec_concat_comment_acc(origv, acc@)
            =~= spec_concat_comment_acc(origv, acc@));
    }
    while src.len() > 0
        invariant
            spec_concat_comment(origv) == out@.map_values(|c: CommentContent| c@)
                + spec_concat_comment_acc(src@.map_values(|c: CommentContent| c@), acc@),
        decreases src.len(),
    {
        let ghost items = src@.map_values(|c: CommentContent| c@);
        let x = src.remove(0);
        proof {
            assert(items[0] == x@);
            assert(src@.map_values(|c: CommentContent| c@) =~= items.drop_first());
        }
        match x {
            CommentContent::Text(t) => {
                acc.append(t.as_str());
            },
            CommentContent::QP(c) => {
                let cs = crate::util::char_string(c);
                proof {
                    assert(acc@ + cs@ =~= acc@.push(c));
                }
                acc.append(cs.as_str());
            },
            CommentContent::Comment(v) => {
                let ghost vv = v;
                let ghost acc0 = acc@;
                let ghost outmap0 = out@.map_values(|c: CommentContent| c@);
                let ghost flushed: Seq<SpecCommentContent> = if acc0.len() == 0 {
                    Seq::empty()
                } else {
                    seq![SpecCommentContent::Text(acc0)]
                };
                if !acc.as_str().is_empty() {
                    let done = acc;
                    acc = String::new();
                    out.push(CommentContent::Text(done));
                }
                out.push(CommentContent::Comment(v));
                proof {
                    let rest = items.drop_first();
                    assert(spec_concat_comment_acc(items, acc0) == flushed + seq![
                        SpecCommentContent::Comment(vv),
                    ] + spec_concat_comment_acc(rest, Seq::empty()));
                    if acc0.len() == 0 {
                        assert(out@.map_values(|c: CommentContent| c@) =~= outmap0 + seq![
                            SpecCommentContent::Comment(vv),
                        ]);
                        assert(outmap0 + flushed =~= outmap0);
                    } else {
                        assert(out@.map_values(|c: CommentContent| c@) =~= (outmap0 + flushed)
                            + seq![SpecCommentContent::Comment(vv)]);
                    }
                    assert(acc@ =~= Seq::<char>::empty());
                    assert(src@.map_values(|c: CommentContent| c@) =~= rest);
                    assert(outmap0 + (flushed + seq![SpecCommentContent::Comment(vv)]
                        + spec_concat_comment_acc(rest, Seq::empty())) =~= ((outmap0 + flushed)
                        + seq![SpecCommentContent::Comment(vv)]) + spec_concat_comment_acc(
                        rest,
                        Seq::empty(),
                    ));
                    assert(spec_concat_comment(origv) == out@.map_values(|c: CommentContent| c@)
                        + spec_concat_comment_acc(
                        src@.map_values(|c: CommentContent| c@),
                        acc@,
                    ));
                }
            },
        }
    }
    proof {
        assert(src@.map_values(|c: CommentContent| c@) =~= Seq::<SpecCommentContent>::empty());
        let outv = out@.map_values(|c: CommentContent| c@);
        if acc@.len() == 0 {
            assert(outv + Seq::<SpecCommentContent>::empty() =~= outv);
        }
    }
    if !acc.as_str().is_empty() {
        let done = acc;
        let ghost outv = out@.map_values(|c: CommentContent| c@);
        out.push(CommentContent::Text(done));
        proof {
            assert(out@.map_values(|c: CommentContent| c@) =~= outv + seq![
                SpecCommentContent::Text(done@),
            ]);
        }
    }
    out
}

/// Scan a comment text run starting at `pos`.
fn scan_ctext(input: &[u8], pos: usize) -> (r: usize)
    requires
        pos <= input.len(),
    ensures
        r == scan(input@, pos as int, ctext_cls()),
        pos <= r <= input.len(),
{
    let mut j: usize = pos;
    while j < input.len() && is_ctext(input[j])
        invariant
            pos <= j <= input.len(),
            forall|k: int| pos <= k < j ==> ctext_cls()(input@[k]),
        decreases input.len() - j,
    {
        j = j + 1;
    }
    proof {
        lemma_scan_is(input@, pos as int, j as int, ctext_cls());
    }
    j
}

/// Parse a comment at `pos`: parenthesized text runs, escaped characters
/// and nested comments, each preceded by optional folding whitespace. The
/// returned pieces are merged with [`_concat_comment`]; comments contribute
/// no text to the surrounding token, so callers use only the end position.
pub fn comment(input: &[u8], pos: usize) -> (r: Option<(usize, Vec<CommentContent>)>)
    requires
        pos <= input.len(),
    ensures
        match r {
            Some((np, items)) => spec_comment_end(input@, pos as int) == Some(np as int) && pos
                < np <= input.len() && spec_merged_shape(
                items@.map_values(|c: CommentContent| c@),
            ),
            None => spec_comment_end(input@, pos as int) is None,
        },
    decreases input.len() - pos,
{
    if !(pos < input.len() && input[pos] == 40) {
        return None;
    }
    let mut items: Vec<CommentContent> = Vec::new();
    let mut j: usize = pos + 1;
    loop
        invariant
            pos + 1 <= j <= input.len(),
            pos < input.len(),
            input@[pos as int] == 40,
            spec_comment_items(input@, pos + 1) == spec_comment_items(input@, j as int),
        decreases input.len() - j,
    {
        let (p, _w) = ofws(input, j);
        if p < input.len() && is_ctext(input[p]) {
            let j2 = scan_ctext(input, p);
            proof {
                crate::bytescan::lemma_scan_nonempty(input@, p as int, ctext_cls());
                lemma_scan_elems(input@, p as int, ctext_cls());
                lemma_ctext_ascii(input@, p as int, j2 as int);
            }
            let text = ascii_to_string(vstd::slice::slice_subrange(input, p, j2));
            items.push(CommentContent::Text(text));
            j = j2;
        } else if p < input.len() && input[p] == 92 && p + 1 < input.len() && (
        crate::rfc5234::is_vchar(input[p + 1]) || is_wsp(input[p + 1])) {
            items.push(CommentContent::QP(input[p + 1] as char));
            proof {
                assert(spec_ccontent_end(input@, p as int) == Some((p + 2) as int));
            }
            j = p + 2;
        } else {
            match comment(input, p) {
                Some((e, inner)) => {
                    items.push(CommentContent::Comment(inner));
                    proof {
                        assert(spec_ccontent_end(input@, p as int) == Some(e as int));
                    }
                    j = e;
                },
                None => {
                    proof {
                        assert(spec_ccontent_end(input@, p as int) is None);
                    }
                    if p < input.len() && input[p] == 41 {
                        proof {
                            assert(spec_comment_items(input@, j as int) == Some((p + 1) as int));
                        }
                    } else {
                        proof {
                            assert(spec_comment_items(input@, j as int) is None);
                        }
                    }
                    if p < input.len() && input[p] == 41 {
                        let merged = _concat_comment(items);
                        return Some((p + 1, merged));
                    } else {
                        return None;
                    }
                },
            }
        }
    }
}

/// Bytes inside a comment text scan are ASCII.
proof fn lemma_ctext_ascii(s: Seq<u8>, i: int, j: int)
    requires
        0 <= i <= j <= s.len(),
        forall|k: int| i <= k < j ==> ctext_cls()(s[k]),
    ensures
        spec_legacy_chars(s.subrange(i, j)) =~= spec_ascii_chars(s.subrange(i, j)),
{
}

/// End of the remaining comment-plus-whitespace units at `j`: optional
/// folding whitespace and a comment, zero or more times.
pub open spec fn spec_cfws_more(s: Seq<u8>, j: int) -> int
    decreases s.len() - j when 0 <= j <= s.len()
{
    let p = spec_ofws_end(s, j);
    if j <= p <= s.len() {
        match spec_comment_end(s, p) {
            Some(e) => if j < e <= s.len() {
                spec_cfws_more(s, e)
            } else {
                j
            },
            None => j,
        }
    } else {
        j
    }
}

/// End of comment or folding whitespace at `i`: one or more units of
/// optional folding whitespace plus a comment, then optional folding
/// whitespace; or folding whitespace alone.
pub open spec fn spec_cfws_end(s: Seq<u8>, i: int) -> Option<int> {
    let p0 = spec_ofws_end(s, i);
    if i <= p0 <= s.len() {
        match spec_comment_end(s, p0) {
            Some(e0) => if i < e0 <= s.len() {
                Some(spec_ofws_end(s, spec_cfws_more(s, e0)))
            } else {
                None
            },
            None => spec_fws_end(s, i),
        }
    } else {
        None
    }
}

/// End position after optional comment-or-folding-whitespace at `i`.
pub open spec fn spec_ocfws_end(s: Seq<u8>, i: int) -> int {
    match spec_cfws_end(s, i) {
        Some(e) => e,
        None => i,
    }
}

/// Parse comment or folding whitespace at `pos`. Comments contribute no
/// output text, so only the end position is returned.
pub fn cfws(input: &[u8], pos: usize) -> (r: Option<usize>)
    requires
        pos <= input.len(),
    ensures
        match r {
            Some(np) => spec_cfws_end(input@, pos as int) == Some(np as int) && pos < np
                <= input.len(),
            None => spec_cfws_end(input@, pos as int) is None,
        },
{
    let (p0, _w) = ofws(input, pos);
    match comment(input, p0) {
        Some((e0, _c)) => {
            let mut j: usize = e0;
            loop
                invariant
                    pos < j <= input.len(),
                    spec_cfws_more(input@, e0 as int) == spec_cfws_more(input@, j as int),
                ensures
                    pos < j <= input.len(),
                    spec_cfws_more(input@, e0 as int) == j as int,
                decreases input.len() - j,
            {
                let (p, _w2) = ofws(input, j);
                match comment(input, p) {
                    Some((e, _c2)) => {
                        j = e;
                    },
                    None => {
                        proof {
                            assert(spec_cfws_more(input@, j as int) == j as int);
                        }
                        break ;
                    },
                }
            }
            let (fin, _w3) = ofws(input, j);
            Some(fin)
        },
        None => {
            match fws(input, pos) {
                Some((np, _v)) => Some(np),
                None => None,
            }
        },
    }
}

/// Parse optional comment-or-folding-whitespace, returning the position
/// after it.
pub fn ocfws(input: &[u8], pos: usize) -> (r: usize)
    requires
        pos <= input.len(),
    ensures
        r == spec_ocfws_end(input@, pos as int),
        pos <= r <= input.len(),
{
    match cfws(input, pos) {
        Some(np) => np,
        None => pos,
    }
}

/// Quoted-string text byte: printable except the double quote and the
/// backslash, plus every octet above 127.
pub open spec fn qtext_cls() -> spec_fn(u8) -> bool {
    |b: u8| b == 33 || (35 <= b <= 91) || (93 <= b <= 126) || b >= 128
}

/// Decide membership in the quoted-string text class.
fn is_qtext(b: u8) -> (r: bool)
    ensures
        r == qtext_cls()(b),
{
    b == 33 || (35 <= b && b <= 91) || (93 <= b && b <= 126) || b >= 128
}

/// Scan a quoted-string text run starting at `pos`.
fn scan_qtext(input: &[u8], pos: usize) -> (r: usize)
    requires
        pos <= input.len(),
    ensures
        r == scan(input@, pos as int, qtext_cls()),
        pos <= r <= input.len(),
{
    let mut j: usize = pos;
    while j < input.len() && is_qtext(input[j])
        invariant
            pos <= j <= input.len(),
            forall|k: int| pos <= k < j ==> qtext_cls()(input@[k]),
        decreases input.len() - j,
    {
        j = j + 1;
    }
    proof {
        lemma_scan_is(input@, pos as int, j as int, qtext_cls());
    }
    j
}

/// One decoded fragment of a quoted string.
#[derive(Clone, Debug, PartialEq)]
pub enum QContent {
    /// Literal text, including kept folding whitespace.
    Literal(String),
    /// The decoded text of an embedded encoded word.
    EncodedWord(String),
    /// A character that stood behind a backslash.
    QP(char),
}

/// Specification-level quoted-string fragment.
pub enum SpecQContent {
    /// Literal text.
    Literal(Seq<char>),
    /// Decoded encoded-word text.
    EncodedWord(Seq<char>),
    /// An escaped character.
    QP(char),
}

impl View for QContent {
    type V = SpecQContent;

    open spec fn view(&self) -> SpecQContent {
        match self {
            QContent::Literal(t) => SpecQContent::Literal(t@),
            QContent::EncodedWord(t) => SpecQContent::EncodedWord(t@),
            QContent::QP(c) => SpecQContent::QP(*c),
        }
    }
}

/// The text of one quoted-string fragment.
pub open spec fn spec_qcontent_text(q: SpecQContent) -> Seq<char> {
    match q {
        SpecQContent::Literal(t) => t,
        SpecQContent::EncodedWord(t) => t,
        SpecQContent::QP(c) => seq![c],
    }
}

/// The concatenated text of a quoted string's fragments.
pub open spec fn spec_concat_qs(items: Seq<SpecQContent>) -> Seq<char>
    decreases items.len(),
{
    if items.len() == 0 {
        Seq::empty()
    } else {
        spec_qcontent_text(items[0]) + spec_concat_qs(items.drop_first())
    }
}

/// Concatenate the decoded fragments of a quoted string.
pub fn concat_qs(input: Vec<QContent>) -> (r: String)
    ensures
        r@ == spec_concat_qs(input@.map_values(|q: QContent| q@)),
{
    let mut src = input;
    let mut out = String::new();
    proof {
        assert(Seq::<char>::empty() + spec_concat_qs(src@.map_values(|q: QContent| q@))
            =~= spec_concat_qs(src@.map_values(|q: QContent| q@)));
    }
    while src.len() > 0
        invariant
            spec_concat_qs(input@.map_values(|q: QContent| q@)) == out@ + spec_concat_qs(
                src@.map_values(|q: QContent| q@),
            ),
        decreases src.len(),
    {
        let ghost items = src@.map_values(|q: QContent| q@);
        let x = src.remove(0);
        proof {
            assert(items[0] == x@);
            assert(src@.map_values(|q: QContent| q@) =~= items.drop_first());
            assert(out@ + (spec_qcontent_text(items[0]) + spec_concat_qs(items.drop_first()))
                =~= (out@ + spec_qcontent_text(items[0])) + spec_concat_qs(items.drop_first()));
        }
        match x {
            QContent::Literal(t) => {
                acc_append(&mut out, t);
            },
            QContent::EncodedWord(t) => {
                acc_append(&mut out, t);
            },
            QContent::QP(c) => {
                let cs = crate::util::char_string(c);
                acc_append(&mut out, cs);
            },
        }
    }
    proof {
        assert(src@.map_values(|q: QContent| q@) =~= Seq::<SpecQContent>::empty());
        assert(out@ + Seq::<char>::empty() =~= out@);
    }
    out
}

/// Append one string to an accumulator.
fn acc_append(out: &mut String, t: String)
    ensures
        final(out)@ == old(out)@ + t@,
{
    out.append(t.as_str());
}

/// The interior of a quoted string starting at `i` (after the opening
/// quote): fragments of literal text, escaped characters and embedded
/// encoded words, each preceded by optional folding whitespace. Folding
/// whitespace between two encoded words is dropped; elsewhere it is kept.
/// Yields the position of the closing quote candidate and the decoded text.
pub open spec fn spec_inner_qs(s: Seq<u8>, i: int, intl: bool, prev_ew: bool) -> (int, Seq<char>)
    decreases s.len() - i when 0 <= i <= s.len()
{
    let w = spec_ofws_end(s, i);
    let ws = spec_ofws_val(s, i);
    if i <= w <= s.len() {
        match crate::rfc2047::spec_encoded_word(s, w) {
            Some((e, txt)) => if w < e <= s.len() {
                let (end, rest) = spec_inner_qs(s, e, intl, true);
                (end, (if prev_ew {
                    Seq::empty()
                } else {
                    ws
                }) + txt + rest)
            } else {
                (w, ws)
            },
            None => {
                if w < s.len() && qtext_cls()(s[w]) {
                    let j = scan(s, w, qtext_cls());
                    if w < j <= s.len() {
                        let (end, rest) = spec_inner_qs(s, j, intl, false);
                        (end, ws + spec_decode_octets(intl, s.subrange(w, j)) + rest)
                    } else {
                        (w, ws)
                    }
                } else if spec_quoted_pair_at(s, w) {
                    let (end, rest) = spec_inner_qs(s, w + 2, intl, false);
                    (end, ws + seq![s[w + 1] as char] + rest)
                } else {
                    (w, ws)
                }
            },
        }
    } else {
        (i, Seq::empty())
    }
}

/// Parse the interior of a quoted string at `pos`, yielding the stop
/// position and the fragments.
#[verifier::rlimit(60)]
fn inner_quoted_string(input: &[u8], pos: usize, intl: bool) -> (r: (usize, Vec<QContent>))
    requires
        pos <= input.len(),
    ensures
        spec_inner_qs(input@, pos as int, intl, false).0 == r.0 as int,
        spec_inner_qs(input@, pos as int, intl, false).1 == spec_concat_qs(
            r.1@.map_values(|q: QContent| q@),
        ),
        pos <= r.0 <= input.len(),
{
    let mut frags: Vec<QContent> = Vec::new();
    let mut j: usize = pos;
    let mut prev_ew: bool = false;
    proof {
        assert(spec_concat_qs(frags@.map_values(|q: QContent| q@)) =~= Seq::<char>::empty());
    }
    loop
        invariant_except_break
            spec_inner_qs(input@, pos as int, intl, false).0 == spec_inner_qs(
                input@,
                j as int,
                intl,
                prev_ew,
            ).0,
            spec_inner_qs(input@, pos as int, intl, false).1 == spec_concat_qs(
                frags@.map_values(|q: QContent| q@),
            ) + spec_inner_qs(input@, j as int, intl, prev_ew).1,
        invariant
            pos <= j <= input.len(),
        ensures
            pos <= j <= input.len(),
            spec_inner_qs(input@, pos as int, intl, false).0 == j as int,
            spec_inner_qs(input@, pos as int, intl, false).1 == spec_concat_qs(
                frags@.map_values(|q: QContent| q@),
            ),
        decreases input.len() - j,
    {
        let ghost frags0 = frags@.map_values(|q: QContent| q@);
        let ghost concat0 = spec_concat_qs(frags0);
        let (w, ws) = ofws(input, j);
        match crate::rfc2047::encoded_word(input, w) {
            Some((e, txt)) => {
                let ghost rest = spec_inner_qs(input@, e as int, intl, true).1;
                if !prev_ew {
                    proof {
                        lemma_concat_qs_snoc2(frags0, SpecQContent::Literal(ws@),
                            SpecQContent::EncodedWord(txt@));
                        assert(concat0 + (ws@ + txt@ + rest) =~= ((concat0 + ws@) + txt@)
                            + rest);
                    }
                    frags.push(QContent::Literal(ws));
                    frags.push(QContent::EncodedWord(txt));
                    proof {
                        assert(frags@.map_values(|q: QContent| q@) =~= frags0.push(
                            SpecQContent::Literal(ws@),
                        ).push(SpecQContent::EncodedWord(txt@)));
                    }
                } else {
                    proof {
                        lemma_concat_qs_snoc1(frags0, SpecQContent::EncodedWord(txt@));
                        assert(Seq::<char>::empty() + txt@ =~= txt@);
                        assert(concat0 + ((Seq::<char>::empty() + txt@) + rest) =~= (concat0
                            + txt@) + rest);
                    }
                    frags.push(QContent::EncodedWord(txt));
                    proof {
                        assert(frags@.map_values(|q: QContent| q@) =~= frags0.push(
                            SpecQContent::EncodedWord(txt@),
                        ));
                    }
                }
                j = e;
                prev_ew = true;
            },
            None => {
                if w < input.len() && is_qtext(input[w]) {
                    let j2 = scan_qtext(input, w);
                    proof {
                        crate::bytescan::lemma_scan_nonempty(input@, w as int, qtext_cls());
                    }
                    let run = decode_octets(intl, vstd::slice::slice_subrange(input, w, j2));
                    let ghost rest = spec_inner_qs(input@, j2 as int, intl, false).1;
                    proof {
                        lemma_concat_qs_snoc2(frags0, SpecQContent::Literal(ws@),
                            SpecQContent::Literal(run@));
                        assert(concat0 + ((ws@ + run@) + rest) =~= ((concat0 + ws@) + run@)
                            + rest);
                    }
                    frags.push(QContent::Literal(ws));
                    frags.push(QContent::Literal(run));
                    proof {
                        assert(frags@.map_values(|q: QContent| q@) =~= frags0.push(
                            SpecQContent::Literal(ws@),
                        ).push(SpecQContent::Literal(run@)));
                    }
                    j = j2;
                    prev_ew = false;
                } else if w < input.len() && input[w] == 92 && w + 1 < input.len() && (
                crate::rfc5234::is_vchar(input[w + 1]) || is_wsp(input[w + 1])) {
                    let c = input[w + 1] as char;
                    let ghost rest = spec_inner_qs(input@, w + 2, intl, false).1;
                    proof {
                        lemma_concat_qs_snoc2(frags0, SpecQContent::Literal(ws@),
                            SpecQContent::QP(c));
                        assert(concat0 + ((ws@ + seq![c]) + rest) =~= ((concat0 + ws@) + seq![
                            c,
                        ]) + rest);
                    }
                    frags.push(QContent::Literal(ws));
                    frags.push(QContent::QP(c));
                    proof {
                        assert(frags@.map_values(|q: QContent| q@) =~= frags0.push(
                            SpecQContent::Literal(ws@),
                        ).push(SpecQContent::QP(c)));
                    }
                    j = w + 2;
                    prev_ew = false;
                } else {
                    proof {
                        lemma_concat_qs_snoc1(frags0, SpecQContent::Literal(ws@));
                        assert(spec_inner_qs(input@, j as int, intl, prev_ew).0 == w as int);
                        assert(spec_inner_qs(input@, j as int, intl, prev_ew).1 == ws@);
                    }
                    frags.push(QContent::Literal(ws));
                    proof {
                        assert(frags@.map_values(|q: QContent| q@) =~= frags0.push(
                            SpecQContent::Literal(ws@),
                        ));
                    }
                    j = w;
                    break ;
                }
            },
        }
    }
    (j, frags)
}

/// Appending one fragment appends its text to the concatenation.
proof fn lemma_concat_qs_snoc1(items: Seq<SpecQContent>, a: SpecQContent)
    ensures
        spec_concat_qs(items.push(a)) == spec_concat_qs(items) + spec_qcontent_text(a),
    decreases items.len(),
{
    let p = items.push(a);
    assert(p.len() == items.len() + 1);
    if items.len() == 0 {
        assert(p[0] == a);
        assert(p.drop_first() =~= Seq::<SpecQContent>::empty());
        assert(spec_concat_qs(p) == spec_qcontent_text(a) + spec_concat_qs(
            Seq::<SpecQContent>::empty(),
        ));
        assert(spec_qcontent_text(a) + Seq::<char>::empty() =~= spec_qcontent_text(a));
        assert(Seq::<char>::empty() + spec_qcontent_text(a) =~= spec_qcontent_text(a));
    } else {
        assert(p[0] == items[0]);
        assert(p.drop_first() =~= items.drop_first().push(a));
        assert(spec_concat_qs(p) == spec_qcontent_text(items[0]) + spec_concat_qs(
            p.drop_first(),
        ));
        lemma_concat_qs_snoc1(items.drop_first(), a);
        assert(spec_qcontent_text(items[0]) + (spec_concat_qs(items.drop_first())
            + spec_qcontent_text(a)) =~= (spec_qcontent_text(items[0]) + spec_concat_qs(
            items.drop_first(),
        )) + spec_qcontent_text(a));
        assert(spec_concat_qs(items) == spec_qcontent_text(items[0]) + spec_concat_qs(
            items.drop_first(),
        ));
    }
}

/// Appending two fragments appends their texts to the concatenation.
proof fn lemma_concat_qs_snoc2(items: Seq<SpecQContent>, a: SpecQContent, b: SpecQContent)
    ensures
        spec_concat_qs(items.push(a).push(b)) == spec_concat_qs(items) + spec_qcontent_text(a)
            + spec_qcontent_text(b),
{
    lemma_concat_qs_snoc1(items, a);
    lemma_concat_qs_snoc1(items.push(a), b);
}

/// A quoted string at `i`: optional comment-or-folding-whitespace, a double
/// quote, the decoded interior, a double quote, optional
/// comment-or-folding-whitespace.
pub open spec fn spec_quoted_string(s: Seq<u8>, i: int, intl: bool) -> Option<(int, Seq<char>)> {
    let c0 = spec_ocfws_end(s, i);
    if i <= c0 < s.len() && s[c0] == 34 {
        let (jq, content) = spec_inner_qs(s, c0 + 1, intl, false);
        if jq < s.len() && s[jq] == 34 {
            Some((spec_ocfws_end(s, jq + 1), content))
        } else {
            None
        }
    } else {
        None
    }
}

/// Parse a quoted string at `pos`, yielding the position after it and the
/// decoded content.
pub fn quoted_string(input: &[u8], pos: usize, intl: bool) -> (r: Option<(usize, QuotedString)>)
    requires
        pos <= input.len(),
    ensures
        match r {
            Some((np, q)) => spec_quoted_string(input@, pos as int, intl) == Some((
                np as int,
                q@,
            )) && pos <= np <= input.len(),
            None => spec_quoted_string(input@, pos as int, intl) is None,
        },
{
    let c0 = ocfws(input, pos);
    if !(c0 < input.len() && input[c0] == 34) {
        return None;
    }
    let (jq, frags) = inner_quoted_string(input, c0 + 1, intl);
    if jq < input.len() && input[jq] == 34 {
        let end = ocfws(input, jq + 1);
        let content = concat_qs(frags);
        Some((end, QuotedString(content)))
    } else {
        None
    }
}

/// An atom at `i`: optional comment-or-folding-whitespace around a
/// non-empty atom character run.
pub open spec fn spec_atom(s: Seq<u8>, i: int, intl: bool) -> Option<(int, Seq<char>)> {
    let c0 = spec_ocfws_end(s, i);
    if i <= c0 <= s.len() {
        let j = scan(s, c0, crate::rfc5321::atext_cls(intl));
        if c0 < j <= s.len() {
            Some((spec_ocfws_end(s, j), spec_decode_octets(intl, s.subrange(c0, j))))
        } else {
            None
        }
    } else {
        None
    }
}

/// Parse an atom at `pos`, yielding the position after it and its decoded
/// text.
pub fn atom(input: &[u8], pos: usize, intl: bool) -> (r: Option<(usize, String)>)
    requires
        pos <= input.len(),
    ensures
        match r {
            Some((np, t)) => spec_atom(input@, pos as int, intl) == Some((np as int, t@)) && pos
                <= np <= input.len(),
            None => spec_atom(input@, pos as int, intl) is None,
        },
{
    let c0 = ocfws(input, pos);
    let j = scan_atext_5322(input, c0, intl);
    if c0 < j {
        let text = decode_octets(intl, vstd::slice::slice_subrange(input, c0, j));
        let end = ocfws(input, j);
        Some((end, text))
    } else {
        None
    }
}

/// Scan an atom character run starting at `pos`.
fn scan_atext_5322(input: &[u8], pos: usize, intl: bool) -> (r: usize)
    requires
        pos <= input.len(),
    ensures
        r == scan(input@, pos as int, crate::rfc5321::atext_cls(intl)),
        pos <= r <= input.len(),
{
    let mut j: usize = pos;
    while j < input.len() && is_atext_ext(input[j], intl)
        invariant
            pos <= j <= input.len(),
            forall|k: int| pos <= k < j ==> crate::rfc5321::atext_cls(intl)(input@[k]),
        decreases input.len() - j,
    {
        j = j + 1;
    }
    proof {
        lemma_scan_is(input@, pos as int, j as int, crate::rfc5321::atext_cls(intl));
    }
    j
}

/// A dot-atom at `i`: optional comment-or-folding-whitespace around a
/// non-empty dot-separated atom run.
pub open spec fn spec_dot_atom(s: Seq<u8>, i: int, intl: bool) -> Option<(int, Seq<char>)> {
    let c0 = spec_ocfws_end(s, i);
    if i <= c0 <= s.len() {
        match crate::rfc5321::spec_dot_string(s, c0, intl) {
            Some((j, t)) => Some((spec_ocfws_end(s, j), t)),
            None => None,
        }
    } else {
        None
    }
}

/// Parse a dot-atom at `pos`, yielding the position after it and its
/// decoded text.
pub fn dot_atom(input: &[u8], pos: usize, intl: bool) -> (r: Option<(usize, DotAtom)>)
    requires
        pos <= input.len(),
    ensures
        match r {
            Some((np, a)) => spec_dot_atom(input@, pos as int, intl) == Some((np as int, a@))
                && pos <= np <= input.len(),
            None => spec_dot_atom(input@, pos as int, intl) is None,
        },
{
    let c0 = ocfws(input, pos);
    match crate::rfc5321::dot_string(input, c0, intl) {
        Some((j, t)) => {
            let end = ocfws(input, j);
            Some((end, DotAtom(t)))
        },
        None => None,
    }
}

/// One word of a display name.
#[derive(Clone, Debug, PartialEq)]
pub enum Text {
    /// Decoded text from a quoted string or an encoded word.
    Literal(String),
    /// A bare atom.
    Atom(String),
}

/// Specification-level display-name word.
pub enum SpecText {
    /// Decoded text.
    Literal(Seq<char>),
    /// A bare atom.
    Atom(Seq<char>),
}

impl View for Text {
    type V = SpecText;

    open spec fn view(&self) -> SpecText {
        match self {
            Text::Literal(t) => SpecText::Literal(t@),
            Text::Atom(t) => SpecText::Atom(t@),
        }
    }
}

/// The text of one display-name word.
pub open spec fn spec_text_chars(t: SpecText) -> Seq<char> {
    match t {
        SpecText::Literal(v) => v,
        SpecText::Atom(v) => v,
    }
}

/// Whether a display-name word is a bare atom.
pub open spec fn spec_text_is_atom(t: SpecText) -> bool {
    t is Atom
}

/// Display-name concatenation: a single space separates two neighbouring
/// words when either of them is a bare atom; other neighbours are joined
/// directly.
pub open spec fn spec_concat_words(ws: Seq<SpecText>) -> Seq<char>
    decreases ws.len(),
{
    if ws.len() == 0 {
        Seq::empty()
    } else if ws.len() == 1 {
        spec_text_chars(ws[0])
    } else {
        spec_text_chars(ws[0]) + (if spec_text_is_atom(ws[0]) || spec_text_is_atom(ws[1]) {
            seq![' ']
        } else {
            Seq::empty()
        }) + spec_concat_words(ws.drop_first())
    }
}

/// Concatenate display-name words, inserting a single space at every
/// boundary that touches a bare atom.
pub fn _concat_atom_and_qs(words: Vec<Text>) -> (r: String)
    ensures
        r@ == spec_concat_words(words@.map_values(|t: Text| t@)),
{
    let mut out = String::new();
    let mut k: usize = 0;
    let ghost full = words@.map_values(|t: Text| t@);
    proof {
        assert(full.skip(0) =~= full);
        assert(out@ + spec_concat_words(full) =~= spec_concat_words(full));
    }
    while k < words.len()
        invariant
            k <= words@.len(),
            full == words@.map_values(|t: Text| t@),
            spec_concat_words(full) == out@ + spec_concat_words(full.skip(k as int)),
        decreases words@.len() - k,
    {
        let ghost rest = full.skip(k as int);
        proof {
            assert(rest[0] == full[k as int]);
            assert(rest.drop_first() =~= full.skip(k + 1));
        }
        let w = &words[k];
        let sep = if k + 1 < words.len() {
            let is_a = match w {
                Text::Atom(_) => true,
                Text::Literal(_) => false,
            };
            let is_next_a = match &words[k + 1] {
                Text::Atom(_) => true,
                Text::Literal(_) => false,
            };
            proof {
                assert(rest[1] == full[k + 1]);
            }
            is_a || is_next_a
        } else {
            false
        };
        let t = match w {
            Text::Literal(t) => t,
            Text::Atom(t) => t,
        };
        proof {
            assert(t@ == spec_text_chars(rest[0]));
        }
        out.append(t.as_str());
        if sep {
            out.append(" ");
            proof {
                reveal_strlit(" ");
                assert(spec_text_chars(rest[0]) + seq![' '] + spec_concat_words(rest.drop_first())
                    =~= spec_text_chars(rest[0]) + " "@ + spec_concat_words(rest.drop_first()));
            }
        }
        proof {
            if rest.len() == 1 {
                assert(spec_concat_words(full.skip(k + 1)) =~= Seq::<char>::empty());
                assert(out@ + Seq::<char>::empty() =~= out@);
                assert(spec_concat_words(rest) == spec_text_chars(rest[0]));
            } else {
                assert(spec_concat_words(rest) == spec_text_chars(rest[0]) + (if spec_text_is_atom(
                    rest[0],
                ) || spec_text_is_atom(rest[1]) {
                    seq![' ']
                } else {
                    Seq::empty()
                }) + spec_concat_words(rest.drop_first()));
                if !sep {
                    assert(spec_text_chars(rest[0]) + Seq::<char>::empty() =~= spec_text_chars(
                        rest[0],
                    ));
                }
            }
        }
        k = k + 1;
    }
    proof {
        assert(full.skip(full.len() as int) =~= Seq::<SpecText>::empty());
        assert(out@ + Seq::<char>::empty() =~= out@);
    }
    out
}

/// A display-name word at `i`: an encoded word with optional surrounding
/// comment-or-folding-whitespace, an atom, or a quoted string.
pub open spec fn spec_word(s: Seq<u8>, i: int, intl: bool) -> Option<(int, SpecText)> {
    let c0 = spec_ocfws_end(s, i);
    if i <= c0 <= s.len() {
        match crate::rfc2047::spec_encoded_word(s, c0) {
            Some((e, txt)) => if c0 < e <= s.len() {
                Some((spec_ocfws_end(s, e), SpecText::Literal(txt)))
            } else {
                None
            },
            None => match spec_atom(s, i, intl) {
                Some((j, t)) => Some((j, SpecText::Atom(t))),
                None => match spec_quoted_string(s, i, intl) {
                    Some((j, t)) => Some((j, SpecText::Literal(t))),
                    None => None,
                },
            },
        }
    } else {
        None
    }
}

/// Parse a display-name word at `pos`.
fn word(input: &[u8], pos: usize, intl: bool) -> (r: Option<(usize, Text)>)
    requires
        pos <= input.len(),
    ensures
        match r {
            Some((np, t)) => spec_word(input@, pos as int, intl) == Some((np as int, t@)) && pos
                <= np <= input.len(),
            None => spec_word(input@, pos as int, intl) is None,
        },
{
    let c0 = ocfws(input, pos);
    match crate::rfc2047::encoded_word(input, c0) {
        Some((e, txt)) => {
            let end = ocfws(input, e);
            Some((end, Text::Literal(txt)))
        },
        None => match atom(input, pos, intl) {
            Some((j, t)) => Some((j, Text::Atom(t))),
            None => match quoted_string(input, pos, intl) {
                Some((j, q)) => Some((j, Text::Literal(q.0))),
                None => None,
            },
        },
    }
}

/// Further display-name words after the first.
pub open spec fn spec_words_more(s: Seq<u8>, j: int, intl: bool) -> (int, Seq<SpecText>)
    decreases s.len() - j when 0 <= j <= s.len()
{
    match spec_word(s, j, intl) {
        Some((e, t)) => if j < e <= s.len() {
            let (end, rest) = spec_words_more(s, e, intl);
            (end, seq![t] + rest)
        } else {
            (j, Seq::empty())
        },
        None => (j, Seq::empty()),
    }
}

/// A display name at `i`: one or more words, joined by the display-name
/// concatenation rule.
pub open spec fn spec_display_name(s: Seq<u8>, i: int, intl: bool) -> Option<(int, Seq<char>)> {
    match spec_word(s, i, intl) {
        Some((e0, t0)) => if i < e0 <= s.len() {
            let (end, rest) = spec_words_more(s, e0, intl);
            Some((end, spec_concat_words(seq![t0] + rest)))
        } else {
            None
        },
        None => None,
    }
}

/// Parse a display name at `pos`, yielding the position after it and the
/// concatenated name.
pub fn display_name(input: &[u8], pos: usize, intl: bool) -> (r: Option<(usize, String)>)
    requires
        pos <= input.len(),
    ensures
        match r {
            Some((np, v)) => spec_display_name(input@, pos as int, intl) == Some((
                np as int,
                v@,
            )) && pos <= np <= input.len(),
            None => spec_display_name(input@, pos as int, intl) is None,
        },
{
    let (e0, t0) = match word(input, pos, intl) {
        Some(x) => x,
        None => {
            return None;
        },
    };
    if !(pos < e0) {
        return None;
    }
    let ghost t0v = t0@;
    let mut ws: Vec<Text> = Vec::new();
    ws.push(t0);
    let mut j: usize = e0;
    proof {
        assert(ws@.map_values(|t: Text| t@) =~= seq![t0v]);
    }
    loop
        invariant
            pos < j <= input.len(),
            seq![t0v] + spec_words_more(input@, e0 as int, intl).1 =~= ws@.map_values(
                |t: Text| t@,
            ) + spec_words_more(input@, j as int, intl).1,
            spec_words_more(input@, e0 as int, intl).0 == spec_words_more(
                input@,
                j as int,
                intl,
            ).0,
        ensures
            pos < j <= input.len(),
            spec_words_more(input@, e0 as int, intl).0 == j as int,
            seq![t0v] + spec_words_more(input@, e0 as int, intl).1 =~= ws@.map_values(
                |t: Text| t@,
            ),
        decreases input.len() - j,
    {
        match word(input, j, intl) {
            Some((e, t)) => {
                if j < e {
                    proof {
                        let prev = ws@.map_values(|tt: Text| tt@);
                        assert(spec_words_more(input@, j as int, intl).1 == seq![t@]
                            + spec_words_more(input@, e as int, intl).1);
                        assert(prev + (seq![t@] + spec_words_more(input@, e as int, intl).1) =~= (
                        prev + seq![t@]) + spec_words_more(input@, e as int, intl).1);
                        assert(ws@.push(t).map_values(|tt: Text| tt@) =~= prev + seq![t@]);
                    }
                    ws.push(t);
                    j = e;
                } else {
                    proof {
                        assert(spec_words_more(input@, j as int, intl).0 == j as int);
                        assert(spec_words_more(input@, j as int, intl).1
                            =~= Seq::<SpecText>::empty());
                        let rv = ws@.map_values(|tt: Text| tt@);
                        assert(rv + Seq::<SpecText>::empty() =~= rv);
                    }
                    break ;
                }
            },
            None => {
                proof {
                    assert(spec_words_more(input@, j as int, intl).0 == j as int);
                    assert(spec_words_more(input@, j as int, intl).1 =~= Seq::<SpecText>::empty());
                    let rv = ws@.map_values(|tt: Text| tt@);
                    assert(rv + Seq::<SpecText>::empty() =~= rv);
                }
                break ;
            },
        }
    }
    let name = _concat_atom_and_qs(ws);
    Some((j, name))
}

/// Parse optional folding whitespace at `pos`, yielding its bytes.
fn ofws_bytes(input: &[u8], pos: usize) -> (r: (usize, Vec<u8>))
    requires
        pos <= input.len(),
    ensures
        r.0 == spec_ofws_end(input@, pos as int),
        r.1@ == spec_ofws_bytes(input@, pos as int),
        pos <= r.0 <= input.len(),
{
    let a = scan_wsp(input, pos);
    if a < input.len() && a + 1 < input.len() && input[a] == 13 && input[a + 1] == 10 {
        let b = scan_wsp(input, a + 2);
        if b > a + 2 {
            let mut bytes: Vec<u8> = Vec::new();
            let mut k: usize = pos;
            while k < a
                invariant
                    pos <= k <= a <= input.len(),
                    bytes@ =~= input@.subrange(pos as int, k as int),
                decreases a - k,
            {
                bytes.push(input[k]);
                k = k + 1;
                proof {
                    assert(bytes@ =~= input@.subrange(pos as int, k as int));
                }
            }
            let mut k2: usize = a + 2;
            while k2 < b
                invariant
                    a + 2 <= k2 <= b <= input.len(),
                    bytes@ =~= input@.subrange(pos as int, a as int) + input@.subrange(
                        a + 2,
                        k2 as int,
                    ),
                decreases b - k2,
            {
                bytes.push(input[k2]);
                k2 = k2 + 1;
                proof {
                    assert(bytes@ =~= input@.subrange(pos as int, a as int) + input@.subrange(
                        a + 2,
                        k2 as int,
                    ));
                }
            }
            (b, bytes)
        } else {
            let bytes: Vec<u8> = Vec::new();
            proof {
                assert(bytes@ =~= Seq::<u8>::empty());
            }
            (pos, bytes)
        }
    } else {
        if a > pos {
            let bytes = vstd::slice::slice_to_vec(vstd::slice::slice_subrange(input, pos, a));
            (a, bytes)
        } else {
            let bytes: Vec<u8> = Vec::new();
            proof {
                assert(bytes@ =~= Seq::<u8>::empty());
            }
            (pos, bytes)
        }
    }
}

/// Domain literal text byte: printable except the square brackets and the
/// backslash.
pub open spec fn dtext_cls() -> spec_fn(u8) -> bool {
    |b: u8| (33 <= b <= 90) || (94 <= b <= 126)
}

/// Decide membership in the domain literal text class.
fn is_dtext(b: u8) -> (r: bool)
    ensures
        r == dtext_cls()(b),
{
    (33 <= b && b <= 90) || (94 <= b && b <= 126)
}

/// The interior pieces of a domain literal starting at `j`: text runs, each
/// preceded by optional folding whitespace whose bytes are kept.
pub open spec fn spec_dlit_items(s: Seq<u8>, j: int) -> (int, Seq<u8>)
    decreases s.len() - j when 0 <= j <= s.len()
{
    let w = spec_ofws_end(s, j);
    if j <= w <= s.len() {
        if w < s.len() && dtext_cls()(s[w]) {
            let j2 = scan(s, w, dtext_cls());
            if w < j2 <= s.len() {
                let (end, rest) = spec_dlit_items(s, j2);
                (end, spec_ofws_bytes(s, j) + s.subrange(w, j2) + rest)
            } else {
                (j, Seq::empty())
            }
        } else {
            (j, Seq::empty())
        }
    } else {
        (j, Seq::empty())
    }
}

/// A domain literal at `i`: optional comment-or-folding-whitespace, a
/// bracketed free-form text, optional comment-or-folding-whitespace. The
/// text is upgraded to a parsed IP address when it reads as one.
pub open spec fn spec_domain_literal(s: Seq<u8>, i: int) -> Option<(int, SpecAddressLiteral)> {
    let c0 = spec_ocfws_end(s, i);
    if i <= c0 < s.len() && s[c0] == 91 {
        let (jt, bytes0) = spec_dlit_items(s, c0 + 1);
        if c0 + 1 <= jt <= s.len() {
            let w = spec_ofws_end(s, jt);
            let lit = bytes0 + spec_ofws_bytes(s, jt);
            if jt <= w < s.len() && s[w] == 93 {
                let end = spec_ocfws_end(s, w + 1);
                match crate::ip::spec_ip_literal(lit) {
                    Some(ip) => Some((end, SpecAddressLiteral::IP(ip))),
                    None => Some((end, SpecAddressLiteral::FreeForm(spec_ascii_chars(lit)))),
                }
            } else {
                None
            }
        } else {
            None
        }
    } else {
        None
    }
}

/// Scan a domain literal text run starting at `pos`.
fn scan_dtext(input: &[u8], pos: usize) -> (r: usize)
    requires
        pos <= input.len(),
    ensures
        r == scan(input@, pos as int, dtext_cls()),
        pos <= r <= input.len(),
{
    let mut j: usize = pos;
    while j < input.len() && is_dtext(input[j])
        invariant
            pos <= j <= input.len(),
            forall|k: int| pos <= k < j ==> dtext_cls()(input@[k]),
        decreases input.len() - j,
    {
        j = j + 1;
    }
    proof {
        lemma_scan_is(input@, pos as int, j as int, dtext_cls());
    }
    j
}

/// Parse a domain literal at `pos`.
pub fn domain_literal(input: &[u8], pos: usize) -> (r: Option<(usize, AddressLiteral)>)
    requires
        pos <= input.len(),
    ensures
        match r {
            Some((np, al)) => spec_domain_literal(input@, pos as int) == Some((np as int, al@))
                && pos <= np <= input.len(),
            None => spec_domain_literal(input@, pos as int) is None,
        },
{
    let c0 = ocfws(input, pos);
    if !(c0 < input.len() && input[c0] == 91) {
        return None;
    }
    let mut lit: Vec<u8> = Vec::new();
    let mut j: usize = c0 + 1;
    proof {
        assert(lit@ + spec_dlit_items(input@, j as int).1 =~= spec_dlit_items(
            input@,
            j as int,
        ).1);
    }
    loop
        invariant
            c0 + 1 <= j <= input.len(),
            spec_dlit_items(input@, c0 + 1).0 == spec_dlit_items(input@, j as int).0,
            spec_dlit_items(input@, c0 + 1).1 == lit@ + spec_dlit_items(input@, j as int).1,
        ensures
            c0 + 1 <= j <= input.len(),
            spec_dlit_items(input@, c0 + 1).0 == j as int,
            spec_dlit_items(input@, c0 + 1).1 == lit@,
        decreases input.len() - j,
    {
        let ghost lit0 = lit@;
        let (w, wsb) = ofws_bytes(input, j);
        if w < input.len() && is_dtext(input[w]) {
            let j2 = scan_dtext(input, w);
            proof {
                crate::bytescan::lemma_scan_nonempty(input@, w as int, dtext_cls());
                let rest = spec_dlit_items(input@, j2 as int).1;
                assert(lit0 + (spec_ofws_bytes(input@, j as int) + input@.subrange(
                    w as int,
                    j2 as int,
                ) + rest) =~= ((lit0 + spec_ofws_bytes(input@, j as int)) + input@.subrange(
                    w as int,
                    j2 as int,
                )) + rest);
            }
            let ghost mid0 = lit@ + wsb@;
            let mut q: usize = 0;
            while q < wsb.len()
                invariant
                    q <= wsb@.len(),
                    lit@ =~= lit0 + wsb@.subrange(0, q as int),
                decreases wsb@.len() - q,
            {
                lit.push(wsb[q]);
                q = q + 1;
                proof {
                    assert(lit@ =~= lit0 + wsb@.subrange(0, q as int));
                }
            }
            proof {
                assert(wsb@.subrange(0, wsb@.len() as int) =~= wsb@);
                assert(lit@ =~= lit0 + wsb@);
            }
            let ghost lit1 = lit@;
            let mut k: usize = w;
            while k < j2
                invariant
                    w <= k <= j2 <= input.len(),
                    lit@ =~= lit1 + input@.subrange(w as int, k as int),
                decreases j2 - k,
            {
                lit.push(input[k]);
                k = k + 1;
                proof {
                    assert(lit@ =~= lit1 + input@.subrange(w as int, k as int));
                }
            }
            j = j2;
        } else {
            proof {
                assert(spec_dlit_items(input@, j as int).0 == j as int);
                assert(spec_dlit_items(input@, j as int).1 =~= Seq::<u8>::empty());
                assert(lit@ + Seq::<u8>::empty() =~= lit@);
            }
            break ;
        }
    }
    let (w, wsb) = ofws_bytes(input, j);
    let ghost lit_before = lit@;
    let mut q: usize = 0;
    while q < wsb.len()
        invariant
            q <= wsb@.len(),
            lit@ =~= lit_before + wsb@.subrange(0, q as int),
        decreases wsb@.len() - q,
    {
        lit.push(wsb[q]);
        q = q + 1;
        proof {
            assert(lit@ =~= lit_before + wsb@.subrange(0, q as int));
        }
    }
    proof {
        assert(wsb@.subrange(0, wsb@.len() as int) =~= wsb@);
        assert(lit@ =~= lit_before + wsb@);
    }
    if !(w < input.len() && input[w] == 93) {
        return None;
    }
    let end = ocfws(input, w + 1);
    match crate::ip::ip_literal(lit.as_slice()) {
        Some(ip) => Some((end, AddressLiteral::IP(ip))),
        None => {
            let text = ascii_to_string(lit.as_slice());
            proof {
                lemma_dlit_ascii(input@, c0 + 1);
                lemma_ofws_bytes_wsp(input@, j as int);
                let d = spec_dlit_items(input@, c0 + 1).1;
                let wb = spec_ofws_bytes(input@, j as int);
                assert forall|k: int| 0 <= k < lit@.len() implies (lit@[k]) < 128 by {
                    if k < d.len() {
                        assert(lit@[k] == d[k]);
                    } else {
                        assert(lit@[k] == wb[k - d.len()]);
                        assert(is_wsp_byte(wb[k - d.len()]));
                    }
                }
                assert(spec_legacy_chars(lit@) =~= spec_ascii_chars(lit@));
            }
            Some((end, AddressLiteral::FreeForm(text)))
        },
    }
}

/// The collected bytes of a domain literal interior are ASCII.
proof fn lemma_dlit_ascii(s: Seq<u8>, j: int)
    requires
        0 <= j <= s.len(),
    ensures
        forall|k: int|
            0 <= k < spec_dlit_items(s, j).1.len() ==> (#[trigger] spec_dlit_items(s, j).1[k])
                < 128,
    decreases s.len() - j,
{
    let w = spec_ofws_end(s, j);
    lemma_ofws_bytes_wsp(s, j);
    if j <= w <= s.len() && w < s.len() && dtext_cls()(s[w]) {
        let j2 = scan(s, w, dtext_cls());
        lemma_scan_elems(s, w, dtext_cls());
        if w < j2 <= s.len() {
            lemma_dlit_ascii(s, j2);
            let a = spec_ofws_bytes(s, j);
            let b = s.subrange(w, j2);
            let c = spec_dlit_items(s, j2).1;
            assert(spec_dlit_items(s, j).1 == a + b + c);
            assert forall|k: int| 0 <= k < (a + b + c).len() implies ((a + b + c)[k]) < 128 by {
                if k < a.len() {
                    assert((a + b + c)[k] == a[k]);
                    assert(is_wsp_byte(a[k]));
                } else if k < a.len() + b.len() {
                    assert((a + b + c)[k] == b[k - a.len()]);
                    assert(dtext_cls()(b[k - a.len()]));
                } else {
                    assert((a + b + c)[k] == c[k - a.len() - b.len()]);
                }
            }
        }
    }
}

/// The bytes of optional folding whitespace are whitespace bytes.
proof fn lemma_ofws_bytes_wsp(s: Seq<u8>, j: int)
    requires
        0 <= j <= s.len(),
    ensures
        forall|k: int|
            0 <= k < spec_ofws_bytes(s, j).len() ==> is_wsp_byte(
                #[trigger] spec_ofws_bytes(s, j)[k],
            ),
{
    if 0 <= j <= s.len() {
        lemma_scan_bounds(s, j, wsp_cls());
        lemma_scan_elems(s, j, wsp_cls());
        let a = scan(s, j, wsp_cls());
        if spec_crlf_at(s, a) {
            if 0 <= a + 2 <= s.len() {
                lemma_scan_bounds(s, a + 2, wsp_cls());
                lemma_scan_elems(s, a + 2, wsp_cls());
            }
        }
    }
}


/// A single mailbox with an optional display name.
#[derive(Clone, Debug, PartialEq)]
pub struct Mailbox {
    /// The display name.
    pub dname: Option<String>,
    /// The address of this mailbox.
    pub address: SMTPMailbox,
}

/// Specification-level display-name-qualified mailbox.
pub struct SpecHeaderMailbox {
    /// The display name.
    pub dname: Option<Seq<char>>,
    /// The address.
    pub address: SpecMailbox,
}

impl View for Mailbox {
    type V = SpecHeaderMailbox;

    open spec fn view(&self) -> SpecHeaderMailbox {
        SpecHeaderMailbox {
            dname: match &self.dname {
                Some(d) => Some(d@),
                None => None,
            },
            address: self.address@,
        }
    }
}

/// A group of mailboxes under one display name.
#[derive(Clone, Debug, PartialEq)]
pub struct Group {
    /// This group's display name.
    pub dname: String,
    /// The members of this group; may be empty.
    pub members: Vec<Mailbox>,
}

/// Specification-level group.
pub struct SpecGroup {
    /// The group's display name.
    pub dname: Seq<char>,
    /// The members.
    pub members: Seq<SpecHeaderMailbox>,
}

impl View for Group {
    type V = SpecGroup;

    open spec fn view(&self) -> SpecGroup {
        SpecGroup {
            dname: self.dname@,
            members: self.members@.map_values(|m: Mailbox| m@),
        }
    }
}

/// An address: a single mailbox or a group.
#[derive(Clone, Debug, PartialEq)]
pub enum Address {
    /// A single mailbox.
    Mailbox(Mailbox),
    /// A group of mailboxes.
    Group(Group),
}

/// Specification-level address.
pub enum SpecAddress {
    /// A single mailbox.
    Mailbox(SpecHeaderMailbox),
    /// A group.
    Group(SpecGroup),
}

impl View for Address {
    type V = SpecAddress;

    open spec fn view(&self) -> SpecAddress {
        match self {
            Address::Mailbox(m) => SpecAddress::Mailbox(m@),
            Address::Group(g) => SpecAddress::Group(g@),
        }
    }
}

/// A local part at `i`: a dot-atom, or a quoted string.
pub open spec fn spec_local_part(s: Seq<u8>, i: int, intl: bool) -> Option<(int, SpecLocalPart)> {
    match spec_dot_atom(s, i, intl) {
        Some((j, t)) => Some((j, SpecLocalPart::DotAtom(t))),
        None => match spec_quoted_string(s, i, intl) {
            Some((j, t)) => Some((j, SpecLocalPart::Quoted(t))),
            None => None,
        },
    }
}

/// Parse a local part at `pos`.
pub fn local_part(input: &[u8], pos: usize, intl: bool) -> (r: Option<(usize, LocalPart)>)
    requires
        pos <= input.len(),
    ensures
        match r {
            Some((np, lp)) => spec_local_part(input@, pos as int, intl) == Some((
                np as int,
                lp@,
            )) && pos <= np <= input.len(),
            None => spec_local_part(input@, pos as int, intl) is None,
        },
{
    match dot_atom(input, pos, intl) {
        Some((j, a)) => Some((j, LocalPart::DotAtom(a))),
        None => match quoted_string(input, pos, intl) {
            Some((j, q)) => Some((j, LocalPart::Quoted(q))),
            None => None,
        },
    }
}

/// A domain part at `i`: a dot-atom domain name, or a domain literal.
pub open spec fn spec_domain(s: Seq<u8>, i: int, intl: bool) -> Option<(int, SpecDomainPart)> {
    match spec_dot_atom(s, i, intl) {
        Some((j, t)) => Some((j, SpecDomainPart::Domain(t))),
        None => match spec_domain_literal(s, i) {
            Some((j, al)) => Some((j, SpecDomainPart::Address(al))),
            None => None,
        },
    }
}

/// Parse a domain part at `pos`.
pub fn domain(input: &[u8], pos: usize, intl: bool) -> (r: Option<(usize, DomainPart)>)
    requires
        pos <= input.len(),
    ensures
        match r {
            Some((np, dp)) => spec_domain(input@, pos as int, intl) == Some((np as int, dp@))
                && pos <= np <= input.len(),
            None => spec_domain(input@, pos as int, intl) is None,
        },
{
    match dot_atom(input, pos, intl) {
        Some((j, a)) => Some((j, DomainPart::Domain(Domain(a.0)))),
        None => match domain_literal(input, pos) {
            Some((j, al)) => Some((j, DomainPart::Address(al))),
            None => None,
        },
    }
}

/// An address specification at `i`: local part, `@`, domain part.
pub open spec fn spec_addr_spec(s: Seq<u8>, i: int, intl: bool) -> Option<(int, SpecMailbox)> {
    match spec_local_part(s, i, intl) {
        Some((j, lp)) => if j < s.len() && s[j] == 64 {
            match spec_domain(s, j + 1, intl) {
                Some((j2, dp)) => Some((j2, SpecMailbox { local: lp, domain: dp })),
                None => None,
            }
        } else {
            None
        },
        None => None,
    }
}

/// Parse an address specification at `pos`.
pub fn addr_spec(input: &[u8], pos: usize, intl: bool) -> (r: Option<(usize, SMTPMailbox)>)
    requires
        pos <= input.len(),
    ensures
        match r {
            Some((np, mb)) => spec_addr_spec(input@, pos as int, intl) == Some((np as int, mb@))
                && pos <= np <= input.len(),
            None => spec_addr_spec(input@, pos as int, intl) is None,
        },
{
    match local_part(input, pos, intl) {
        Some((j, lp)) => {
            if j < input.len() && input[j] == 64 {
                match domain(input, j + 1, intl) {
                    Some((j2, dp)) => Some((j2, SMTPMailbox(lp, dp))),
                    None => None,
                }
            } else {
                None
            }
        },
        None => None,
    }
}

/// An angle-bracketed address at `i`.
pub open spec fn spec_angle_addr(s: Seq<u8>, i: int, intl: bool) -> Option<(int, SpecMailbox)> {
    let c0 = spec_ocfws_end(s, i);
    if i <= c0 < s.len() && s[c0] == 60 {
        match spec_addr_spec(s, c0 + 1, intl) {
            Some((j, mb)) => if j < s.len() && s[j] == 62 {
                Some((spec_ocfws_end(s, j + 1), mb))
            } else {
                None
            },
            None => None,
        }
    } else {
        None
    }
}

/// Parse an angle-bracketed address at `pos`.
fn angle_addr(input: &[u8], pos: usize, intl: bool) -> (r: Option<(usize, SMTPMailbox)>)
    requires
        pos <= input.len(),
    ensures
        match r {
            Some((np, mb)) => spec_angle_addr(input@, pos as int, intl) == Some((np as int, mb@))
                && pos <= np <= input.len(),
            None => spec_angle_addr(input@, pos as int, intl) is None,
        },
{
    let c0 = ocfws(input, pos);
    if !(c0 < input.len() && input[c0] == 60) {
        return None;
    }
    match addr_spec(input, c0 + 1, intl) {
        Some((j, mb)) => {
            if j < input.len() && input[j] == 62 {
                let end = ocfws(input, j + 1);
                Some((end, mb))
            } else {
                None
            }
        },
        None => None,
    }
}

/// A name-and-address mailbox at `i`: optional display name, then an
/// angle-bracketed address.
pub open spec fn spec_name_addr(s: Seq<u8>, i: int, intl: bool) -> Option<(
    int,
    SpecHeaderMailbox,
)> {
    match spec_display_name(s, i, intl) {
        Some((j, d)) => if i <= j <= s.len() {
            match spec_angle_addr(s, j, intl) {
                Some((j2, mb)) => Some((j2, SpecHeaderMailbox { dname: Some(d), address: mb })),
                None => None,
            }
        } else {
            None
        },
        None => match spec_angle_addr(s, i, intl) {
            Some((j2, mb)) => Some((j2, SpecHeaderMailbox { dname: None, address: mb })),
            None => None,
        },
    }
}

/// A mailbox at `i`: a name-and-address form, or a bare address
/// specification with no display name.
pub open spec fn spec_mailbox(s: Seq<u8>, i: int, intl: bool) -> Option<(int, SpecHeaderMailbox)> {
    match spec_name_addr(s, i, intl) {
        Some(x) => Some(x),
        None => match spec_addr_spec(s, i, intl) {
            Some((j, mb)) => Some((j, SpecHeaderMailbox { dname: None, address: mb })),
            None => None,
        },
    }
}

/// Parse a mailbox at `pos`.
pub fn mailbox_at(input: &[u8], pos: usize, intl: bool) -> (r: Option<(usize, Mailbox)>)
    requires
        pos <= input.len(),
    ensures
        match r {
            Some((np, mb)) => spec_mailbox(input@, pos as int, intl) == Some((np as int, mb@))
                && pos <= np <= input.len(),
            None => spec_mailbox(input@, pos as int, intl) is None,
        },
{
    let na = match display_name(input, pos, intl) {
        Some((j, d)) => {
            match angle_addr(input, j, intl) {
                Some((j2, mb)) => Some((j2, Mailbox { dname: Some(d), address: mb })),
                None => None,
            }
        },
        None => {
            match angle_addr(input, pos, intl) {
                Some((j2, mb)) => Some((j2, Mailbox { dname: None, address: mb })),
                None => None,
            }
        },
    };
    match na {
        Some(x) => Some(x),
        None => {
            match addr_spec(input, pos, intl) {
                Some((j, mb)) => Some((j, Mailbox { dname: None, address: mb })),
                None => None,
            }
        },
    }
}

/// Further mailboxes after the first: a comma then a mailbox, zero or more
/// times.
pub open spec fn spec_mailbox_list_more(s: Seq<u8>, j: int, intl: bool) -> (
    int,
    Seq<SpecHeaderMailbox>,
)
    decreases s.len() - j when 0 <= j <= s.len()
{
    if j < s.len() && s[j] == 44 {
        match spec_mailbox(s, j + 1, intl) {
            Some((j2, mb)) => if j < j2 <= s.len() {
                let (e, rest) = spec_mailbox_list_more(s, j2, intl);
                (e, seq![mb] + rest)
            } else {
                (j, Seq::empty())
            },
            None => (j, Seq::empty()),
        }
    } else {
        (j, Seq::empty())
    }
}

/// A comma-separated mailbox list at `i`, at least one mailbox.
pub open spec fn spec_mailbox_list(s: Seq<u8>, i: int, intl: bool) -> Option<(
    int,
    Seq<SpecHeaderMailbox>,
)> {
    match spec_mailbox(s, i, intl) {
        Some((j, mb)) => if i <= j <= s.len() {
            let (e, rest) = spec_mailbox_list_more(s, j, intl);
            Some((e, seq![mb] + rest))
        } else {
            None
        },
        None => None,
    }
}

/// Parse a comma-separated mailbox list at `pos`.
#[verifier::rlimit(60)]
#[verifier::spinoff_prover]
fn mailbox_list(input: &[u8], pos: usize, intl: bool) -> (r: Option<(usize, Vec<Mailbox>)>)
    requires
        pos <= input.len(),
    ensures
        match r {
            Some((np, ms)) => spec_mailbox_list(input@, pos as int, intl) == Some((
                np as int,
                ms@.map_values(|m: Mailbox| m@),
            )) && pos <= np <= input.len(),
            None => spec_mailbox_list(input@, pos as int, intl) is None,
        },
{
    let (j0, m0) = match mailbox_at(input, pos, intl) {
        Some(x) => x,
        None => {
            return None;
        },
    };
    let ghost m0v = m0@;
    let mut out: Vec<Mailbox> = Vec::new();
    out.push(m0);
    let mut j: usize = j0;
    proof {
        assert(out@.map_values(|m: Mailbox| m@) =~= seq![m0v]);
    }
    loop
        invariant
            pos <= j <= input.len(),
            seq![m0v] + spec_mailbox_list_more(input@, j0 as int, intl).1 =~= out@.map_values(
                |m: Mailbox| m@,
            ) + spec_mailbox_list_more(input@, j as int, intl).1,
            spec_mailbox_list_more(input@, j0 as int, intl).0 == spec_mailbox_list_more(
                input@,
                j as int,
                intl,
            ).0,
        ensures
            pos <= j <= input.len(),
            spec_mailbox_list_more(input@, j0 as int, intl).0 == j as int,
            seq![m0v] + spec_mailbox_list_more(input@, j0 as int, intl).1 =~= out@.map_values(
                |m: Mailbox| m@,
            ),
        decreases input.len() - j,
    {
        if j < input.len() && input[j] == 44 {
            match mailbox_at(input, j + 1, intl) {
                Some((j2, m)) => {
                    if j < j2 {
                        proof {
                            let prev = out@.map_values(|mm: Mailbox| mm@);
                            assert(spec_mailbox_list_more(input@, j as int, intl).1 == seq![m@]
                                + spec_mailbox_list_more(input@, j2 as int, intl).1);
                            assert(prev + (seq![m@] + spec_mailbox_list_more(
                                input@,
                                j2 as int,
                                intl,
                            ).1) =~= (prev + seq![m@]) + spec_mailbox_list_more(
                                input@,
                                j2 as int,
                                intl,
                            ).1);
                            assert(out@.push(m).map_values(|mm: Mailbox| mm@) =~= prev + seq![
                                m@,
                            ]);
                        }
                        out.push(m);
                        j = j2;
                    } else {
                        proof {
                            lemma_map_mailbox_append_empty(out@);
                        }
                        break ;
                    }
                },
                None => {
                    proof {
                        lemma_map_mailbox_append_empty(out@);
                    }
                    break ;
                },
            }
        } else {
            proof {
                lemma_map_mailbox_append_empty(out@);
            }
            break ;
        }
    }
    Some((j, out))
}

/// Appending nothing leaves a mapped mailbox sequence unchanged.
proof fn lemma_map_mailbox_append_empty(out: Seq<Mailbox>)
    ensures
        out.map_values(|m: Mailbox| m@) + Seq::<SpecHeaderMailbox>::empty() =~= out.map_values(
            |m: Mailbox| m@,
        ),
        Seq::<SpecHeaderMailbox>::empty() =~= seq![],
{
}


/// The members of a group at `j` (after the colon): a mailbox list, pure
/// comment-or-folding-whitespace for an empty group, or nothing.
pub open spec fn spec_group_list(s: Seq<u8>, j: int, intl: bool) -> (
    int,
    Seq<SpecHeaderMailbox>,
) {
    match spec_mailbox_list(s, j, intl) {
        Some((j2, ms)) => (j2, ms),
        None => match spec_cfws_end(s, j) {
            Some(e) => (e, Seq::empty()),
            None => (j, Seq::empty()),
        },
    }
}

/// A group at `i`: a display name, a colon, optional members, a semicolon
/// and optional trailing comment-or-folding-whitespace.
pub open spec fn spec_group(s: Seq<u8>, i: int, intl: bool) -> Option<(int, SpecGroup)> {
    match spec_display_name(s, i, intl) {
        Some((j, d)) => if i <= j < s.len() && s[j] == 58 {
            let (j2, ms) = spec_group_list(s, j + 1, intl);
            if j + 1 <= j2 < s.len() && s[j2] == 59 {
                Some((spec_ocfws_end(s, j2 + 1), SpecGroup { dname: d, members: ms }))
            } else {
                None
            }
        } else {
            None
        },
        None => None,
    }
}

/// Parse a group at `pos`.
fn group(input: &[u8], pos: usize, intl: bool) -> (r: Option<(usize, Group)>)
    requires
        pos <= input.len(),
    ensures
        match r {
            Some((np, g)) => spec_group(input@, pos as int, intl) == Some((np as int, g@)) && pos
                <= np <= input.len(),
            None => spec_group(input@, pos as int, intl) is None,
        },
{
    let (j, d) = match display_name(input, pos, intl) {
        Some(x) => x,
        None => {
            return None;
        },
    };
    if !(j < input.len() && input[j] == 58) {
        return None;
    }
    let (j2, ms) = match mailbox_list(input, j + 1, intl) {
        Some((j2, ms)) => (j2, ms),
        None => {
            match cfws(input, j + 1) {
                Some(e) => {
                    let empty: Vec<Mailbox> = Vec::new();
                    proof {
                        assert(empty@.map_values(|m: Mailbox| m@)
                            =~= Seq::<SpecHeaderMailbox>::empty());
                    }
                    (e, empty)
                },
                None => {
                    let empty: Vec<Mailbox> = Vec::new();
                    proof {
                        assert(empty@.map_values(|m: Mailbox| m@)
                            =~= Seq::<SpecHeaderMailbox>::empty());
                    }
                    (j + 1, empty)
                },
            }
        },
    };
    if j2 < input.len() && input[j2] == 59 {
        let end = ocfws(input, j2 + 1);
        Some((end, Group { dname: d, members: ms }))
    } else {
        None
    }
}

/// An address at `i`: a mailbox, or a group.
pub open spec fn spec_address(s: Seq<u8>, i: int, intl: bool) -> Option<(int, SpecAddress)> {
    match spec_mailbox(s, i, intl) {
        Some((j, mb)) => Some((j, SpecAddress::Mailbox(mb))),
        None => match spec_group(s, i, intl) {
            Some((j, g)) => Some((j, SpecAddress::Group(g))),
            None => None,
        },
    }
}

/// Parse an address at `pos`.
fn address(input: &[u8], pos: usize, intl: bool) -> (r: Option<(usize, Address)>)
    requires
        pos <= input.len(),
    ensures
        match r {
            Some((np, a)) => spec_address(input@, pos as int, intl) == Some((np as int, a@))
                && pos <= np <= input.len(),
            None => spec_address(input@, pos as int, intl) is None,
        },
{
    match mailbox_at(input, pos, intl) {
        Some((j, mb)) => Some((j, Address::Mailbox(mb))),
        None => match group(input, pos, intl) {
            Some((j, g)) => Some((j, Address::Group(g))),
            None => None,
        },
    }
}

/// Further addresses after the first: a comma then an address, zero or more
/// times.
pub open spec fn spec_address_list_more(s: Seq<u8>, j: int, intl: bool) -> (int, Seq<SpecAddress>)
    decreases s.len() - j when 0 <= j <= s.len()
{
    if j < s.len() && s[j] == 44 {
        match spec_address(s, j + 1, intl) {
            Some((j2, a)) => if j < j2 <= s.len() {
                let (e, rest) = spec_address_list_more(s, j2, intl);
                (e, seq![a] + rest)
            } else {
                (j, Seq::empty())
            },
            None => (j, Seq::empty()),
        }
    } else {
        (j, Seq::empty())
    }
}

/// A comma-separated address list at `i`, at least one address.
pub open spec fn spec_address_list(s: Seq<u8>, i: int, intl: bool) -> Option<(
    int,
    Seq<SpecAddress>,
)> {
    match spec_address(s, i, intl) {
        Some((j, a)) => if i <= j <= s.len() {
            let (e, rest) = spec_address_list_more(s, j, intl);
            Some((e, seq![a] + rest))
        } else {
            None
        },
        None => None,
    }
}

/// Parse a comma-separated address list at `pos`.
#[verifier::rlimit(100)]
#[verifier::spinoff_prover]
fn address_list(input: &[u8], pos: usize, intl: bool) -> (r: Option<(usize, Vec<Address>)>)
    requires
        pos <= input.len(),
    ensures
        match r {
            Some((np, as_)) => spec_address_list(input@, pos as int, intl) == Some((
                np as int,
                as_@.map_values(|a: Address| a@),
            )) && pos <= np <= input.len(),
            None => spec_address_list(input@, pos as int, intl) is None,
        },
{
    let (j0, a0) = match address(input, pos, intl) {
        Some(x) => x,
        None => {
            return None;
        },
    };
    let ghost a0v = a0@;
    let mut out: Vec<Address> = Vec::new();
    out.push(a0);
    let mut j: usize = j0;
    proof {
        assert(out@.map_values(|a: Address| a@) =~= seq![a0v]);
        assert(seq![a0v] + spec_address_list_more(input@, j0 as int, intl).1 == out@.map_values(
            |a: Address| a@,
        ) + spec_address_list_more(input@, j0 as int, intl).1);
    }
    loop
        invariant
            pos <= j <= input.len(),
            seq![a0v] + spec_address_list_more(input@, j0 as int, intl).1 == out@.map_values(
                |a: Address| a@,
            ) + spec_address_list_more(input@, j as int, intl).1,
            spec_address_list_more(input@, j0 as int, intl).0 == spec_address_list_more(
                input@,
                j as int,
                intl,
            ).0,
        ensures
            pos <= j <= input.len(),
            spec_address_list_more(input@, j0 as int, intl).0 == j as int,
            seq![a0v] + spec_address_list_more(input@, j0 as int, intl).1 == out@.map_values(
                |a: Address| a@,
            ),
        decreases input.len() - j,
    {
        if j < input.len() && input[j] == 44 {
            match address(input, j + 1, intl) {
                Some((j2, a)) => {
                    if j < j2 {
                        proof {
                            let prev = out@.map_values(|aa: Address| aa@);
                            assert(spec_address_list_more(input@, j as int, intl).1 == seq![a@]
                                + spec_address_list_more(input@, j2 as int, intl).1);
                            assert(prev + (seq![a@] + spec_address_list_more(
                                input@,
                                j2 as int,
                                intl,
                            ).1) =~= (prev + seq![a@]) + spec_address_list_more(
                                input@,
                                j2 as int,
                                intl,
                            ).1);
                            assert(out@.push(a).map_values(|aa: Address| aa@) =~= prev + seq![
                                a@,
                            ]);
                        }
                        out.push(a);
                        j = j2;
                    } else {
                        proof {
                            lemma_map_address_append_empty(out@);
                        }
                        break ;
                    }
                },
                None => {
                    proof {
                        lemma_map_address_append_empty(out@);
                    }
                    break ;
                },
            }
        } else {
            proof {
                lemma_map_address_append_empty(out@);
            }
            break ;
        }
    }
    Some((j, out))
}

/// Appending nothing leaves a mapped address sequence unchanged.
proof fn lemma_map_address_append_empty(out: Seq<Address>)
    ensures
        out.map_values(|a: Address| a@) + Seq::<SpecAddress>::empty() =~= out.map_values(
            |a: Address| a@,
        ),
        Seq::<SpecAddress>::empty() =~= seq![],
{
}

/// An address list at the start of the input, with an optional trailing
/// line terminator.
pub open spec fn spec_address_list_crlf(s: Seq<u8>, intl: bool) -> Option<(
    int,
    Seq<SpecAddress>,
)> {
    match spec_address_list(s, 0, intl) {
        Some((j, as_)) => if spec_crlf_at(s, j) {
            Some((j + 2, as_))
        } else {
            Some((j, as_))
        },
        None => None,
    }
}

/// A single address at the start of the input, with an optional trailing
/// line terminator.
pub open spec fn spec_address_crlf(s: Seq<u8>, intl: bool) -> Option<(int, SpecAddress)> {
    match spec_address(s, 0, intl) {
        Some((j, a)) => if spec_crlf_at(s, j) {
            Some((j + 2, a))
        } else {
            Some((j, a))
        },
        None => None,
    }
}

/// Parse the content of a `From:` header: one or more addresses.
pub fn from<P: UTF8Policy>(i: &[u8]) -> (r: ParseResult<Vec<Address>>)
    ensures
        match r {
            Ok((rem, as_)) => match spec_address_list_crlf(i@, P::intl()) {
                Some((np, sas)) => as_@.map_values(|a: Address| a@) == sas && rem@
                    == i@.subrange(np, i@.len() as int),
                None => false,
            },
            Err(e) => e == ParseError::GrammarMismatch && spec_address_list_crlf(
                i@,
                P::intl(),
            ) is None,
        },
{
    match address_list(i, 0, P::is_intl()) {
        Some((j, as_)) => {
            let end = match crate::rfc5234::crlf(i, j) {
                Some(e) => e,
                None => j,
            };
            Ok((vstd::slice::slice_subrange(i, end, i.len()), as_))
        },
        None => Err(ParseError::GrammarMismatch),
    }
}

/// Parse the content of a `Sender:` header: a single address.
pub fn sender<P: UTF8Policy>(i: &[u8]) -> (r: ParseResult<Address>)
    ensures
        match r {
            Ok((rem, a)) => match spec_address_crlf(i@, P::intl()) {
                Some((np, sa)) => a@ == sa && rem@ == i@.subrange(np, i@.len() as int),
                None => false,
            },
            Err(e) => e == ParseError::GrammarMismatch && spec_address_crlf(
                i@,
                P::intl(),
            ) is None,
        },
{
    match address(i, 0, P::is_intl()) {
        Some((j, a)) => {
            let end = match crate::rfc5234::crlf(i, j) {
                Some(e) => e,
                None => j,
            };
            Ok((vstd::slice::slice_subrange(i, end, i.len()), a))
        },
        None => Err(ParseError::GrammarMismatch),
    }
}

/// Parse the content of a `Reply-To:` header: one or more addresses.
pub fn reply_to<P: UTF8Policy>(i: &[u8]) -> (r: ParseResult<Vec<Address>>)
    ensures
        match r {
            Ok((rem, as_)) => match spec_address_list_crlf(i@, P::intl()) {
                Some((np, sas)) => as_@.map_values(|a: Address| a@) == sas && rem@
                    == i@.subrange(np, i@.len() as int),
                None => false,
            },
            Err(e) => e == ParseError::GrammarMismatch && spec_address_list_crlf(
                i@,
                P::intl(),
            ) is None,
        },
{
    match address_list(i, 0, P::is_intl()) {
        Some((j, as_)) => {
            let end = match crate::rfc5234::crlf(i, j) {
                Some(e) => e,
                None => j,
            };
            Ok((vstd::slice::slice_subrange(i, end, i.len()), as_))
        },
        None => Err(ParseError::GrammarMismatch),
    }
}


/// Further encoded words joined to a chain: folding whitespace then an
/// encoded word, zero or more times; the whitespace between encoded words
/// contributes nothing.
pub open spec fn spec_ew_more(s: Seq<u8>, j: int) -> (int, Seq<char>)
    decreases s.len() - j when 0 <= j <= s.len()
{
    match spec_fws_end(s, j) {
        Some(wf) => if j < wf <= s.len() {
            match crate::rfc2047::spec_encoded_word(s, wf) {
                Some((e, t)) => if wf < e <= s.len() {
                    let (end, rest) = spec_ew_more(s, e);
                    (end, t + rest)
                } else {
                    (j, Seq::empty())
                },
                None => (j, Seq::empty()),
            }
        } else {
            (j, Seq::empty())
        },
        None => (j, Seq::empty()),
    }
}

/// A chain of encoded words at `i`, joined without inserted spaces.
pub open spec fn spec_ew_chain(s: Seq<u8>, i: int) -> Option<(int, Seq<char>)> {
    match crate::rfc2047::spec_encoded_word(s, i) {
        Some((e0, t0)) => if i < e0 <= s.len() {
            let (end, rest) = spec_ew_more(s, e0);
            Some((end, t0 + rest))
        } else {
            None
        },
        None => None,
    }
}

/// Parse a chain of encoded words at `pos`.
fn ew_chain(input: &[u8], pos: usize) -> (r: Option<(usize, String)>)
    requires
        pos <= input.len(),
    ensures
        match r {
            Some((np, v)) => spec_ew_chain(input@, pos as int) == Some((np as int, v@)) && pos
                < np <= input.len(),
            None => spec_ew_chain(input@, pos as int) is None,
        },
{
    let (e0, t0) = match crate::rfc2047::encoded_word(input, pos) {
        Some(x) => x,
        None => {
            return None;
        },
    };
    let ghost t0v = t0@;
    let mut acc = t0;
    let mut j: usize = e0;
    proof {
        assert(t0v + spec_ew_more(input@, e0 as int).1 =~= acc@ + spec_ew_more(
            input@,
            e0 as int,
        ).1);
    }
    loop
        invariant
            pos < j <= input.len(),
            t0v + spec_ew_more(input@, e0 as int).1 =~= acc@ + spec_ew_more(input@, j as int).1,
            spec_ew_more(input@, e0 as int).0 == spec_ew_more(input@, j as int).0,
        ensures
            pos < j <= input.len(),
            spec_ew_more(input@, e0 as int).0 == j as int,
            t0v + spec_ew_more(input@, e0 as int).1 =~= acc@,
        decreases input.len() - j,
    {
        let more = match fws(input, j) {
            Some((wf, _w)) => {
                match crate::rfc2047::encoded_word(input, wf) {
                    Some((e, t)) => Some((e, t)),
                    None => None,
                }
            },
            None => None,
        };
        match more {
            Some((e, t)) => {
                proof {
                    assert(spec_ew_more(input@, j as int).1 == t@ + spec_ew_more(
                        input@,
                        e as int,
                    ).1);
                    assert(acc@ + (t@ + spec_ew_more(input@, e as int).1) =~= (acc@ + t@)
                        + spec_ew_more(input@, e as int).1);
                }
                acc.append(t.as_str());
                j = e;
            },
            None => {
                proof {
                    assert(spec_ew_more(input@, j as int).0 == j as int);
                    assert(spec_ew_more(input@, j as int).1 =~= Seq::<char>::empty());
                    assert(acc@ + Seq::<char>::empty() =~= acc@);
                }
                break ;
            },
        }
    }
    Some((j, acc))
}

/// Unstructured text byte: visible, or any octet above 127.
pub open spec fn unstr_cls() -> spec_fn(u8) -> bool {
    |b: u8| (33 <= b <= 126) || b >= 128
}

/// Decide membership in the unstructured text class.
fn is_unstr(b: u8) -> (r: bool)
    ensures
        r == unstr_cls()(b),
{
    (33 <= b && b <= 126) || b >= 128
}

/// Scan an unstructured text run starting at `pos`.
fn scan_unstr(input: &[u8], pos: usize) -> (r: usize)
    requires
        pos <= input.len(),
    ensures
        r == scan(input@, pos as int, unstr_cls()),
        pos <= r <= input.len(),
{
    let mut j: usize = pos;
    while j < input.len() && is_unstr(input[j])
        invariant
            pos <= j <= input.len(),
            forall|k: int| pos <= k < j ==> unstr_cls()(input@[k]),
        decreases input.len() - j,
    {
        j = j + 1;
    }
    proof {
        lemma_scan_is(input@, pos as int, j as int, unstr_cls());
    }
    j
}

/// The words of unstructured text starting at `j`: each word is an
/// encoded-word chain or a raw text run, preceded by optional folding
/// whitespace that is kept.
pub open spec fn spec_unstr_items(s: Seq<u8>, j: int, intl: bool) -> (int, Seq<char>)
    decreases s.len() - j when 0 <= j <= s.len()
{
    let w = spec_ofws_end(s, j);
    let ws = spec_ofws_val(s, j);
    if j <= w <= s.len() {
        match spec_ew_chain(s, w) {
            Some((e, t)) => if j < e <= s.len() {
                let (end, rest) = spec_unstr_items(s, e, intl);
                (end, ws + t + rest)
            } else {
                (j, Seq::empty())
            },
            None => {
                if w < s.len() && unstr_cls()(s[w]) {
                    let j2 = scan(s, w, unstr_cls());
                    if j < j2 <= s.len() {
                        let (end, rest) = spec_unstr_items(s, j2, intl);
                        (end, ws + spec_decode_octets(intl, s.subrange(w, j2)) + rest)
                    } else {
                        (j, Seq::empty())
                    }
                } else {
                    (j, Seq::empty())
                }
            },
        }
    } else {
        (j, Seq::empty())
    }
}

/// Unstructured header text: words with their folding whitespace, then any
/// trailing plain whitespace.
pub open spec fn spec_unstructured(s: Seq<u8>, intl: bool) -> (int, Seq<char>) {
    let (jw, val) = spec_unstr_items(s, 0, intl);
    if 0 <= jw <= s.len() {
        let a = scan(s, jw, wsp_cls());
        (a, val + spec_ascii_chars(s.subrange(jw, a)))
    } else {
        (jw, val)
    }
}

/// Parse an unstructured header such as the content of `Subject:`,
/// returning the remainder and the fully decoded text.
pub fn unstructured<P: UTF8Policy>(input: &[u8]) -> (r: ParseResult<String>)
    ensures
        match r {
            Ok((rem, v)) => spec_unstructured(input@, P::intl()).0 == input@.len()
                - rem@.len() && spec_unstructured(input@, P::intl()).1 == v@ && rem@
                == input@.subrange(
                spec_unstructured(input@, P::intl()).0,
                input@.len() as int,
            ),
            Err(_) => false,
        },
{
    let intl = P::is_intl();
    let mut out = String::new();
    let mut j: usize = 0;
    proof {
        assert(out@ + spec_unstr_items(input@, 0, intl).1 =~= spec_unstr_items(
            input@,
            0,
            intl,
        ).1);
    }
    loop
        invariant
            j <= input.len(),
            spec_unstr_items(input@, 0, intl).0 == spec_unstr_items(input@, j as int, intl).0,
            spec_unstr_items(input@, 0, intl).1 == out@ + spec_unstr_items(
                input@,
                j as int,
                intl,
            ).1,
        ensures
            j <= input.len(),
            spec_unstr_items(input@, 0, intl).0 == j as int,
            spec_unstr_items(input@, 0, intl).1 == out@,
        decreases input.len() - j,
    {
        let (w, ws) = ofws(input, j);
        match ew_chain(input, w) {
            Some((e, t)) => {
                let ghost rest = spec_unstr_items(input@, e as int, intl).1;
                proof {
                    assert(out@ + ((ws@ + t@) + rest) =~= ((out@ + ws@) + t@) + rest);
                }
                acc_append(&mut out, ws);
                acc_append(&mut out, t);
                j = e;
            },
            None => {
                if w < input.len() && is_unstr(input[w]) {
                    let j2 = scan_unstr(input, w);
                    proof {
                        crate::bytescan::lemma_scan_nonempty(input@, w as int, unstr_cls());
                    }
                    let run = decode_octets(intl, vstd::slice::slice_subrange(input, w, j2));
                    let ghost rest = spec_unstr_items(input@, j2 as int, intl).1;
                    proof {
                        assert(out@ + ((ws@ + run@) + rest) =~= ((out@ + ws@) + run@) + rest);
                    }
                    acc_append(&mut out, ws);
                    acc_append(&mut out, run);
                    j = j2;
                } else {
                    proof {
                        assert(spec_unstr_items(input@, j as int, intl).0 == j as int);
                        assert(spec_unstr_items(input@, j as int, intl).1
                            =~= Seq::<char>::empty());
                        assert(out@ + Seq::<char>::empty() =~= out@);
                    }
                    break ;
                }
            },
        }
    }
    let a = scan_wsp(input, j);
    let tail = ascii_to_string(vstd::slice::slice_subrange(input, j, a));
    proof {
        lemma_wsp_ascii(input@, j as int, a as int);
    }
    acc_append(&mut out, tail);
    Ok((vstd::slice::slice_subrange(input, a, input.len()), out))
}


} // verus!
