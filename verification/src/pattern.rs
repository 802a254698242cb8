//! The regular expressions of the `regex` crate, as far as matching a path
//! needs them. Nothing in this file is proved: it states what the rest of
//! the library takes from `regex` on trust.

use regex::Regex;
use vstd::prelude::*;

verus! {

/// `regex::Regex`, a compiled regular expression. Its inside is not visible
/// to proofs.
#[verifier::external_type_specification]
#[verifier::external_body]
pub struct ExRegex(regex::Regex);

/// `regex::Error`, the reason why a pattern was not compiled. Its inside is
/// not visible to proofs.
#[verifier::external_type_specification]
#[verifier::external_body]
pub struct ExRegexError(regex::Error);

/// What `Regex::new` makes of a pattern: nothing where it rejects the
/// pattern (bad syntax, or a program over the default size limit), else the
/// set of the texts in which the compiled expression finds a match.
pub uninterp spec fn pattern_language(pattern: Seq<char>) -> Option<Set<Seq<char>>>;

/// What a compiled expression holds: the set of the texts for which
/// `Regex::is_match` answers yes, that is the texts that contain a match
/// somewhere.
pub uninterp spec fn accepted_texts(regex: Regex) -> Set<Seq<char>>;

/// The pattern is one that compiles.
pub open spec fn pattern_is_valid(pattern: Seq<char>) -> bool {
    pattern_language(pattern) is Some
}

/// The pattern compiles, and the expression it compiles to finds a match
/// somewhere in `text`.
pub open spec fn pattern_matches(pattern: Seq<char>, text: Seq<char>) -> bool {
    match pattern_language(pattern) {
        Some(texts) => texts.contains(text),
        None => false,
    }
}

/// Calls `Regex::new`. Trusted: compiling is a function of the pattern
/// alone, so it fails exactly on the patterns that have no language, and an
/// expression that it returns accepts exactly the pattern's language.
#[verifier::external_body]
pub(crate) fn compile_pattern(pattern: &str) -> (r: Result<Regex, regex::Error>)
    ensures
        match r {
            Ok(regex) => pattern_language(pattern@) == Some(accepted_texts(regex)),
            Err(_) => pattern_language(pattern@) is None,
        },
{
    Regex::new(pattern)
}

/// Calls `Regex::is_match`. Trusted: the answer is yes exactly for the
/// texts that the expression accepts.
#[verifier::external_body]
pub(crate) fn regex_is_match(regex: &Regex, text: &str) -> (b: bool)
    ensures
        b == accepted_texts(*regex).contains(text@),
{
    regex.is_match(text)
}

} // verus!
