//! Regular expressions over paths.

use regex::bytes::Regex;
use vstd::prelude::*;

verus! {

/// Makes `regex::bytes::Regex` known as a type whose inside is not looked
/// at.
#[verifier::external_type_specification]
#[verifier::external_body]
pub struct ExRegex(regex::bytes::Regex);

/// Whether the expression finds a match anywhere in the UTF-8 bytes of `text`,
/// as `regex::bytes::Regex::is_match` decides it.
pub uninterp spec fn regex_matches(re: Regex, text: Seq<char>) -> bool;

/// Calls `regex::bytes::Regex::is_match` on the bytes of `text`. Trusted: the
/// result is the one that `regex_matches` names.
#[verifier::external_body]
pub(crate) fn is_match(re: &Regex, text: &str) -> (r: bool)
    ensures
        r == regex_matches(*re, text@),
{
    re.is_match(text.as_bytes())
}

/// Calls the `clone` of `regex::bytes::Regex`. Trusted: the copy is the same
/// expression.
#[verifier::external_body]
pub(crate) fn clone_regex(re: &Regex) -> (r: Regex)
    ensures
        r == *re,
{
    re.clone()
}

} // verus!
