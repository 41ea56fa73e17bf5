//! Regular expressions.

use vstd::prelude::*;
use vstd::string::*;

verus! {

/// The text is a valid regular expression.
pub uninterp spec fn regex_valid(pattern: Seq<char>) -> bool;

/// The regular expression matches somewhere in the text.
pub uninterp spec fn regex_matches(pattern: Seq<char>, text: Seq<char>) -> bool;

/// The text with every match replaced, captures of the match filled in.
pub uninterp spec fn regex_replaced_all(pattern: Seq<char>, text: Seq<char>, replacement: Seq<char>) -> Seq<char>;

/// The text with the first match replaced, captures of the match filled in.
pub uninterp spec fn regex_replaced_first(pattern: Seq<char>, text: Seq<char>, replacement: Seq<char>) -> Seq<char>;

/// `regex::Regex::new`: whether the pattern compiles, which depends on the pattern alone.
#[verifier::external_body]
pub(crate) fn regex_is_valid(pattern: &str) -> (r: bool)
    ensures
        r == regex_valid(pattern@),
{
    regex::Regex::new(pattern).is_ok()
}

/// `regex::Regex::is_match`: whether the pattern matches somewhere in the text, which
/// depends on the two alone.
#[verifier::external_body]
pub(crate) fn regex_is_match(pattern: &str, text: &str) -> (r: bool)
    requires
        regex_valid(pattern@),
    ensures
        r == regex_matches(pattern@, text@),
{
    regex::Regex::new(pattern).unwrap().is_match(text)
}

/// `regex::Regex::replace_all`: the text with every match replaced. Without a match the
/// text comes back unchanged.
#[verifier::external_body]
pub(crate) fn regex_replace_all(pattern: &str, text: &str, replacement: &str) -> (r: String)
    requires
        regex_valid(pattern@),
    ensures
        r@ == regex_replaced_all(pattern@, text@, replacement@),
        !regex_matches(pattern@, text@) ==> r@ == text@,
{
    regex::Regex::new(pattern).unwrap().replace_all(text, replacement).into_owned()
}

/// `regex::Regex::replace`: the text with its first match replaced. Without a match the
/// text comes back unchanged.
#[verifier::external_body]
pub(crate) fn regex_replace_first(pattern: &str, text: &str, replacement: &str) -> (r: String)
    requires
        regex_valid(pattern@),
    ensures
        r@ == regex_replaced_first(pattern@, text@, replacement@),
        !regex_matches(pattern@, text@) ==> r@ == text@,
{
    regex::Regex::new(pattern).unwrap().replace(text, replacement).into_owned()
}

} // verus!
