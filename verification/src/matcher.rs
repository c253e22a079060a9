//! Pattern matching over entry display names, through a compiled regular
//! expression of the `regex` crate.
use vstd::prelude::*;

use crate::PwsError;

verus! {

#[verifier::external_type_specification]
#[verifier::external_body]
pub struct ExRegex(regex::Regex);

/// What `regex::Regex::is_match` returns for the given pattern text and
/// subject text: the match relation is a function of the two alone.
pub uninterp spec fn spec_regex_match(pattern: Seq<char>, text: Seq<char>) -> bool;

/// A compiled pattern that keeps the pattern text it was compiled from.
pub struct Matcher {
    re: regex::Regex,
    text: String,
}

impl Matcher {
    /// The pattern this matcher was compiled from.
    pub closed spec fn pattern(self) -> Seq<char> {
        self.text@
    }

    /// Relies on `regex::Regex::new`: compile a pattern; `Err` exactly when
    /// the pattern is not a valid regular expression.
    #[verifier::external_body]
    pub fn new(pattern: &str) -> (r: Result<Matcher, PwsError>)
        ensures
            r matches Ok(m) ==> m.pattern() == pattern@,
            r matches Err(e) ==> e == PwsError::BadPattern,
    {
        match regex::Regex::new(pattern) {
            Ok(re) => Ok(Matcher { re, text: pattern.to_owned() }),
            Err(_) => Err(PwsError::BadPattern),
        }
    }

    /// Relies on `regex::Regex::is_match`: whether the pattern matches
    /// anywhere in the text.
    #[verifier::external_body]
    pub fn is_match(&self, text: &str) -> (r: bool)
        ensures
            r == spec_regex_match(self.pattern(), text@),
    {
        self.re.is_match(text)
    }
}

} // verus!
