//! Regular-expression searches, done by the `regex` crate.
//!
//! A pattern is compiled for each search, so every function here goes from plain strings to
//! plain values and nothing of the `regex` crate shows in the library's own types.

use regex::Regex;
use vstd::prelude::*;

verus! {

/// Whether `Regex::new` accepts `pattern`.
pub uninterp spec fn pattern_compiles(pattern: Seq<char>) -> bool;

/// What `Regex::is_match` answers for `text`, on the expression compiled from `pattern`:
/// whether the expression matches anywhere in `text`.
pub uninterp spec fn pattern_matches(pattern: Seq<char>, text: Seq<char>) -> bool;

/// What `Regex::captures_iter` yields for `text`, on the expression compiled from `pattern`: for
/// each of the successive non-overlapping matches, from left to right, what `Captures::get(1)`
/// holds, the text of the first capture group, or `None` where that group took no part in the
/// match.
pub uninterp spec fn pattern_groups(pattern: Seq<char>, text: Seq<char>) -> Seq<Option<Seq<char>>>;

/// Compiles `pattern` with `Regex::new` and asks `Regex::is_match` about `text`. The contract
/// claims that the call fails exactly when the pattern does not compile, with the text of the
/// `regex::Error`, and that the answer depends on the pattern and the text alone.
#[verifier::external_body]
pub(crate) fn search(pattern: &str, text: &str) -> (found: Result<bool, String>)
    ensures
        found is Ok <==> pattern_compiles(pattern@),
        found matches Ok(hit) ==> hit == pattern_matches(pattern@, text@),
{
    match Regex::new(pattern) {
        Ok(expression) => Ok(expression.is_match(text)),
        Err(error) => Err(error.to_string()),
    }
}

/// Compiles `pattern` with `Regex::new`, walks `Regex::captures_iter` over `text` and copies the
/// first capture group of each match. The contract claims that the call fails exactly when the
/// pattern does not compile, with the text of the `regex::Error`, and that the list depends on
/// the pattern and the text alone.
#[verifier::external_body]
pub(crate) fn first_groups(pattern: &str, text: &str) -> (groups: Result<
    Vec<Option<String>>,
    String,
>)
    ensures
        groups is Ok <==> pattern_compiles(pattern@),
        groups matches Ok(list) ==> list.deep_view() == pattern_groups(pattern@, text@),
{
    match Regex::new(pattern) {
        Ok(expression) => Ok(
            expression.captures_iter(text).map(
                |found| found.get(1).map(|group| group.as_str().to_string()),
            ).collect(),
        ),
        Err(error) => Err(error.to_string()),
    }
}

/// Whether `pattern` is a regular expression that compiles.
pub fn compiles(pattern: &str) -> (valid: bool)
    ensures
        valid == pattern_compiles(pattern@),
{
    search(pattern, "").is_ok()
}

} // verus!
