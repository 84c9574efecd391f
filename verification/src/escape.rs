//! HTML escaping of untrusted text, done by the `marksman_escape` crate.

use vstd::prelude::*;

verus! {

/// What escaping a string yields. The escaper works byte by byte and
/// replaces a fixed set of ASCII characters with entities, so its output
/// depends on the input characters alone.
pub uninterp spec fn html_escaped(s: Seq<char>) -> Seq<char>;

/// Escapes `input` for safe embedding in HTML.
///
/// Relies on `marksman_escape::Escape`: it maps each byte of the input to
/// itself or to an ASCII entity for a fixed set of ASCII characters, a
/// function of the input alone; on bytes of a valid string its output is
/// again a valid string. An empty input stays empty.
#[verifier::external_body]
pub fn escape_html(input: &str) -> (r: String)
    ensures
        r@ == html_escaped(input@),
        input@.len() == 0 ==> r@.len() == 0,
{
    let escaped = marksman_escape::Escape::new(input.bytes()).collect();
    String::from_utf8(escaped).unwrap()
}

} // verus!
