//! The regular-expression engine behind the input matchers.
//!
//! Matching is done by the `regex` crate. Nothing here is proved: each item
//! states what the crate documents of one of its functions, and names what it
//! computes where that cannot be written down in a few lines.

use regex::Regex;
use vstd::prelude::*;

verus! {

/// `regex::Regex`, a compiled expression. Nothing inside it is visible here.
#[verifier::external_type_specification]
#[verifier::external_body]
pub struct ExRegex(regex::Regex);

/// `regex::Error`, the reason why a pattern did not compile.
#[verifier::external_type_specification]
#[verifier::external_body]
pub struct ExRegexError(regex::Error);

/// The pattern text that a compiled expression was built from, as
/// `Regex::as_str` would return it.
pub uninterp spec fn regex_source(re: Regex) -> Seq<char>;

/// Whether `Regex::new` accepts `pattern`: it is well formed and compiles
/// within the default size limit.
pub uninterp spec fn pattern_valid(pattern: Seq<char>) -> bool;

/// The leftmost match of `pattern` in `text`, as `Regex::captures` finds it:
/// `None` when there is no match, else one entry per capture group, in the
/// order of their opening parentheses and starting with the whole match at
/// index 0. The entry of a group that took no part in the match is `None`.
pub uninterp spec fn pattern_captures(pattern: Seq<char>, text: Seq<char>) -> Option<
    Seq<Option<Seq<char>>>,
>;

/// `Regex::new` compiles a pattern. It fails on a pattern that is malformed
/// or too large, and the compiled expression remembers its pattern text.
pub assume_specification[ Regex::new ](re: &str) -> (r: Result<Regex, regex::Error>)
    ensures
        r is Ok == pattern_valid(re@),
        r matches Ok(compiled) ==> regex_source(compiled) == re@,
;

/// `Regex::is_match` is true exactly when the expression matches somewhere
/// in the text, that is, when `Regex::captures` would find a match.
pub assume_specification[ Regex::is_match ](re: &Regex, haystack: &str) -> (r: bool)
    ensures
        r == (pattern_captures(regex_source(*re), haystack@) is Some),
;

/// `Regex::captures`, with the text of every capture group copied out of the
/// match by `Captures::iter` and `Match::as_str`.
#[verifier::external_body]
pub(crate) fn captures(re: &Regex, text: &str) -> (r: Option<Vec<Option<String>>>)
    ensures
        r.deep_view() == pattern_captures(regex_source(*re), text@),
{
    re.captures(text).map(|caps| caps.iter().map(|m| m.map(|m| m.as_str().to_string())).collect())
}

} // verus!
