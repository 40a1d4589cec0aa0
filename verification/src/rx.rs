//! Trusted boundary to the regular-expression engine. The engine's result
//! is a pure function of pattern, replacement and text, so it is named
//! rather than restated.

use vstd::prelude::*;

verus! {

/// Whether `regex::Regex::new` accepts the pattern text.
pub uninterp spec fn regex_ok(pattern: Seq<char>) -> bool;

/// What `regex::Regex::replace_all` yields on `text` for a pattern that
/// compiles: every non-overlapping match replaced per `replacement`.
pub uninterp spec fn regex_replaced(
    pattern: Seq<char>,
    replacement: Seq<char>,
    text: Seq<char>,
) -> Seq<char>;

/// Relies on `regex::Regex::new` and `regex::Regex::replace_all`: `None`
/// exactly when the pattern does not compile; otherwise every
/// non-overlapping match of `pattern` in `text` is replaced per
/// `replacement`, with `$`-references resolved against the match.
#[verifier::external_body]
pub fn regex_replace_all(pattern: &str, replacement: &str, text: &str) -> (r: Option<String>)
    ensures
        r is Some <==> regex_ok(pattern@),
        r matches Some(s) ==> s@ == regex_replaced(pattern@, replacement@, text@),
{
    match regex::Regex::new(pattern) {
        Ok(re) => Some(re.replace_all(text, replacement).into_owned()),
        Err(_) => None,
    }
}

} // verus!
