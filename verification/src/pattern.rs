//! Regular expressions.

use regex::Regex;
use vstd::prelude::*;

verus! {

/// A compiled regular expression.
#[verifier::external_type_specification]
#[verifier::external_body]
pub struct ExRegex(Regex);

/// Why a pattern could not be compiled.
#[verifier::external_type_specification]
#[verifier::external_body]
pub struct ExRegexError(regex::Error);

/// What `Regex::new` makes of `pattern`.
pub uninterp spec fn regex_of(pattern: Seq<char>) -> Result<Regex, regex::Error>;

/// Whether `Regex::is_match` finds a match for `re` in `text`.
pub uninterp spec fn regex_matches(re: Regex, text: Seq<char>) -> bool;

/// The text that shows why a pattern could not be compiled.
pub uninterp spec fn regex_error_text(e: regex::Error) -> Seq<char>;

/// `Regex::new`: the regular expression that `pattern` spells, or why it spells none or
/// one that is too large, under the name `regex_of`.
#[verifier::external_body]
pub(crate) fn compile(pattern: &str) -> (compiled: Result<Regex, regex::Error>)
    ensures
        compiled == regex_of(pattern@),
{
    Regex::new(pattern)
}

/// `Regex::is_match`: whether there is a match for `re` anywhere in `text`, under the name
/// `regex_matches`.
#[verifier::external_body]
pub(crate) fn is_match(re: &Regex, text: &str) -> (found: bool)
    ensures
        found == regex_matches(*re, text@),
{
    re.is_match(text)
}

/// `regex::Error`'s `Display`: the text that shows `e`, under the name `regex_error_text`.
#[verifier::external_body]
pub(crate) fn error_text(e: &regex::Error) -> (text: String)
    ensures
        text@ == regex_error_text(*e),
{
    e.to_string()
}

} // verus!
