//! Types used for varying parser behaviour.
//!
//! The policy is chosen once per top-level parse call through a type
//! parameter and never varies mid-parse.

use vstd::prelude::*;

verus! {

/// Compile-time choice of how octets above 127 are interpreted.
pub trait UTF8Policy: Sized {
    /// True for the internationalized policy, false for the legacy one.
    spec fn intl() -> bool;

    /// Runtime view of the policy choice.
    fn is_intl() -> (r: bool)
        ensures
            r == Self::intl(),
    ;
}

/// Octets above 127 are replaced by a replacement character.
pub struct Legacy;

/// Octets above 127 are interpreted as UTF-8.
pub struct Intl;

impl UTF8Policy for Legacy {
    open spec fn intl() -> bool {
        false
    }

    fn is_intl() -> bool {
        false
    }
}

impl UTF8Policy for Intl {
    open spec fn intl() -> bool {
        true
    }

    fn is_intl() -> bool {
        true
    }
}

} // verus!
