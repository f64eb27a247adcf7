//! Primitive layer: longest-run scanning over a byte predicate.
//!
//! Every grammar module expresses "zero or more bytes of class C" through
//! [`scan`], the specification-level longest-run function, and proves its
//! scanning loops against it.

use vstd::prelude::*;

verus! {

/// Position after the longest run of bytes satisfying `cls` starting at `i`.
pub open spec fn scan(s: Seq<u8>, i: int, cls: spec_fn(u8) -> bool) -> int
    decreases s.len() - i when 0 <= i <= s.len()
{
    if i < s.len() && cls(s[i]) {
        scan(s, i + 1, cls)
    } else {
        i
    }
}

/// The scan result stays within `[i, s.len()]`.
pub proof fn lemma_scan_bounds(s: Seq<u8>, i: int, cls: spec_fn(u8) -> bool)
    requires
        0 <= i <= s.len(),
    ensures
        i <= scan(s, i, cls) <= s.len(),
    decreases s.len() - i,
{
    if i < s.len() && cls(s[i]) {
        lemma_scan_bounds(s, i + 1, cls);
    }
}

/// Every byte inside the scanned run satisfies `cls`, and the run is maximal.
pub proof fn lemma_scan_elems(s: Seq<u8>, i: int, cls: spec_fn(u8) -> bool)
    requires
        0 <= i <= s.len(),
    ensures
        forall|k: int| i <= k < scan(s, i, cls) ==> cls(s[k]),
        scan(s, i, cls) < s.len() ==> !cls(s[scan(s, i, cls)]),
    decreases s.len() - i,
{
    if i < s.len() && cls(s[i]) {
        lemma_scan_elems(s, i + 1, cls);
    }
}

/// A maximal run determines the scan result: if everything in `[i, m)`
/// satisfies `cls` and `m` is the end of input or fails `cls`, the scan from
/// `i` stops exactly at `m`.
pub proof fn lemma_scan_is(s: Seq<u8>, i: int, m: int, cls: spec_fn(u8) -> bool)
    requires
        0 <= i <= m <= s.len(),
        forall|k: int| i <= k < m ==> cls(s[k]),
        m < s.len() ==> !cls(s[m]),
    ensures
        scan(s, i, cls) == m,
    decreases m - i,
{
    if i < m {
        lemma_scan_is(s, i + 1, m, cls);
    }
}

/// A run that starts on a byte of the class is non-empty.
pub proof fn lemma_scan_nonempty(s: Seq<u8>, i: int, cls: spec_fn(u8) -> bool)
    requires
        0 <= i < s.len(),
        cls(s[i]),
    ensures
        scan(s, i, cls) > i,
{
    lemma_scan_bounds(s, i + 1, cls);
}

} // verus!
