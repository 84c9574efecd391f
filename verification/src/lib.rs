//! A small HTTP routing library built around a radix trie.
//!
//! Route patterns mix literal text with brace-delimited, optionally
//! regex-constrained parameters (`/b/{board}/{thread:[0-9]+}`). The trie
//! resolves an incoming path to the value registered for the best-matching
//! pattern, capturing parameter values along the way; literal branches
//! always take precedence over parameter branches.

pub mod chars;
pub mod escape;
pub mod forms;
pub mod method;
pub mod pattern;
pub mod router;
pub mod rx;
pub mod status;
pub mod trie;

use vstd::prelude::*;

verus! {

/// The errors a route registration can report. Registration never panics:
/// every malformed pattern and every conflict surfaces as one of these.
#[derive(Debug, PartialEq, Eq, Structural)]
pub enum Error {
    /// The pattern does not begin with `/`.
    StartWithSlash,
    /// Brace nesting in the pattern never returns to zero, or closes too often.
    UnbalancedBrace,
    /// A parameter has an empty name before its optional `:`.
    MissingNameOrPattern,
    /// The regex constraint of a parameter does not compile.
    InvalidRegex,
    /// The same pattern was registered twice.
    DuplicateRoute,
}

} // verus!
