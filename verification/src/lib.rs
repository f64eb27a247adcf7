//! Parsers for SMTP command arguments and Internet Message Format address
//! headers.
//!
//! Raw byte input is turned into validated, structured values following the
//! IETF grammars for SMTP paths, ESMTP parameters and address headers,
//! including folding-whitespace normalization, nested comments, quoted
//! strings and encoded-word decoding. Every parser is a pure function from a
//! byte slice (and a policy choice) to either a remainder plus a value, or a
//! failure; no parser panics on any input.

pub mod behaviour;
pub mod bytescan;
pub mod ip;
pub mod rfc2047;
pub mod rfc3461;
pub mod rfc4616;
pub mod rfc5234;
pub mod rfc5321;
pub mod rfc5322;
pub mod types;
pub mod util;
