//! The library's error kinds.

use vstd::prelude::*;

verus! {

/// Why a request produced no tokens.
#[derive(Debug)]
pub enum SpanError {
    /// No literal covers the requested line.
    NoStringFound,
    /// More than one literal covers the requested line.
    MultipleStringsFound,
    /// A pattern-mode filter did not compile.
    RegexError(regex::Error),
}

} // verus!
