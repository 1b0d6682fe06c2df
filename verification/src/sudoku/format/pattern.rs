//! What is assumed of the `regex` crate.

use regex::Regex;
use vstd::prelude::*;

verus! {

/// `regex::Regex`, a compiled regular expression.  Nothing of what is inside
/// it is known here.
#[verifier::external_type_specification]
#[verifier::external_body]
pub struct ExRegex(regex::Regex);

/// `regex::Error`, the reason why a pattern did not compile.  Nothing of what
/// is inside it is known here.
#[verifier::external_type_specification]
#[verifier::external_body]
pub struct ExRegexError(regex::Error);

/// The pattern that a regex was compiled from: what `regex::Regex::as_str`
/// returns.
pub uninterp spec fn regex_source(regex: Regex) -> Seq<char>;

/// Whether a regex matches somewhere in a text: what `regex::Regex::is_match`
/// returns.
pub uninterp spec fn regex_matches(regex: Regex, haystack: Seq<char>) -> bool;

/// `regex::Regex::new` compiles a pattern.  Nothing is claimed of when it
/// succeeds; where it does, the regex remembers the pattern it was given.
pub assume_specification[ Regex::new ](re: &str) -> (compiled: Result<Regex, regex::Error>)
    ensures
        compiled matches Ok(regex) ==> regex_source(regex) == re@,
;

/// `regex::Regex::is_match` says whether the regex matches somewhere in the
/// text.  Its answer is given a name, nothing more is claimed of it.
pub assume_specification[ Regex::is_match ](regex: &Regex, haystack: &str) -> (matched: bool)
    ensures
        matched == regex_matches(*regex, haystack@),
;

} // verus!
