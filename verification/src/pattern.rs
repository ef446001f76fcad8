//! Regular expressions, as the crate `regex_lite` compiles and runs them.
//!
//! Nothing of this file is proved: the contracts state what that crate's
//! functions return, as functions of the pattern for `Regex::new` and of the
//! compiled value and the text for `Regex::is_match`.

use vstd::prelude::*;

verus! {

/// Declares `regex_lite::Regex`, a compiled regular expression, as a type
/// whose inside is not looked at.
#[verifier::external_type_specification]
#[verifier::external_body]
pub struct ExRegex(regex_lite::Regex);

/// Declares `regex_lite::Error`, the error of a pattern that does not
/// compile, as a type whose inside is not looked at.
#[verifier::external_type_specification]
#[verifier::external_body]
pub struct ExRegexError(regex_lite::Error);

/// A name for whether `Regex::new` accepts a pattern.
pub uninterp spec fn pattern_is_valid(pattern: Seq<char>) -> bool;

/// A name for what `Regex::is_match` returns: whether a compiled regular
/// expression matches somewhere in `text`. The answer is that of the value:
/// it may rest on more than the pattern that the value was built from.
pub uninterp spec fn regex_matches(re: regex_lite::Regex, text: Seq<char>) -> bool;

/// A name for what `Regex::is_match` returns on the regular expression that
/// `Regex::new` makes of `pattern`: whether the pattern, compiled with the
/// settings that `Regex::new` uses, matches somewhere in `text`.
pub uninterp spec fn pattern_matches(pattern: Seq<char>, text: Seq<char>) -> bool;

/// Calls `Regex::new`. Whether it accepts the pattern depends on the pattern
/// alone, and so does, for every text, whether the regular expression that
/// it returns matches there.
#[verifier::external_body]
pub(crate) fn compile(pattern: &str) -> (r: Result<regex_lite::Regex, regex_lite::Error>)
    ensures
        r is Ok == pattern_is_valid(pattern@),
        r matches Ok(re) ==> forall|text: Seq<char>|
            #[trigger] regex_matches(re, text) == pattern_matches(pattern@, text),
{
    regex_lite::Regex::new(pattern)
}

/// Calls `Regex::is_match`. Whether there is a match depends on the regular
/// expression and on the text.
#[verifier::external_body]
pub(crate) fn is_match(re: &regex_lite::Regex, text: &str) -> (b: bool)
    ensures
        b == regex_matches(*re, text@),
{
    re.is_match(text)
}

} // verus!
