//! The regex engine behind parameter constraints.
//!
//! A parameter segment such as `{thread:[0-9]+}` carries a regex that decides
//! which captured substrings the route accepts. Compilation and matching are
//! done by the `regex` crate; this module keeps the pattern text beside the
//! compiled value so that contracts can speak about the pattern alone.

use vstd::prelude::*;

verus! {

#[verifier::external_type_specification]
#[verifier::external_body]
pub struct ExRegex(regex::Regex);

/// Whether `regex::Regex::new` accepts a pattern. Compilation depends on the
/// pattern text alone, so its success can be named as a function of it.
pub uninterp spec fn regex_compiles(pattern: Seq<char>) -> bool;

/// What `regex::Regex::is_match` returns: whether the haystack holds a match
/// of the pattern anywhere. The answer depends only on the pattern and the
/// haystack.
pub uninterp spec fn regex_accepts(pattern: Seq<char>, haystack: Seq<char>) -> bool;

/// A compiled parameter constraint: the pattern text and the regex built from
/// it. The fields are private and every value is produced by `compile` or
/// `duplicate`, so the compiled regex always belongs to the stored pattern.
pub struct ParamRegex {
    pattern: String,
    compiled: regex::Regex,
}

impl View for ParamRegex {
    type V = Seq<char>;

    closed spec fn view(&self) -> Seq<char> {
        self.pattern@
    }
}

impl ParamRegex {
    /// Relies on `regex::Regex::new`: it compiles the given pattern, returning
    /// an error exactly when the pattern is invalid (or beyond the default
    /// size limit), which is determined by the pattern text alone.
    #[verifier::external_body]
    pub fn compile(pattern: &str) -> (r: Result<ParamRegex, crate::Error>)
        ensures
            r is Ok <==> regex_compiles(pattern@),
            r is Ok ==> r->Ok_0@ == pattern@,
            r is Err ==> r->Err_0 == crate::Error::InvalidRegex,
    {
        match regex::Regex::new(pattern) {
            Ok(compiled) => Ok(ParamRegex { pattern: pattern.to_owned(), compiled }),
            Err(_) => Err(crate::Error::InvalidRegex),
        }
    }

    /// Relies on `regex::Regex::is_match`: it reports whether the haystack
    /// contains a match of this regex anywhere, a function of the pattern and
    /// the haystack alone.
    #[verifier::external_body]
    pub fn is_match(&self, haystack: &str) -> (r: bool)
        ensures
            r == regex_accepts(self@, haystack@),
    {
        self.compiled.is_match(haystack)
    }

    /// Relies on `regex::Regex::clone` and `String::clone`: the copy holds the
    /// same pattern, compiled.
    #[verifier::external_body]
    pub fn duplicate(&self) -> (r: ParamRegex)
        ensures
            r@ == self@,
    {
        ParamRegex { pattern: self.pattern.clone(), compiled: self.compiled.clone() }
    }

    /// The pattern this constraint was compiled from.
    pub fn pattern(&self) -> (r: &String)
        ensures
            r@ == self@,
    {
        &self.pattern
    }
}

} // verus!
