//! Matching of process names against a pattern.
//!
//! The pattern is a regular expression. It is searched for anywhere in the
//! name and without regard to case, so that a plain word finds every name
//! that contains it in any mix of upper and lower case.

use vstd::prelude::*;
use vstd::string::StringExecFns;

verus! {

/// A compiled regular expression.
#[verifier::external_type_specification]
#[verifier::external_body]
pub struct ExRegex(regex::Regex);

/// The failure to compile a regular expression.
#[verifier::external_type_specification]
#[verifier::external_body]
pub struct ExRegexError(regex::Error);

/// Whether `regex::Regex::new` compiles `pattern`.
pub uninterp spec fn pattern_compiles(pattern: Seq<char>) -> bool;

/// The pattern that a compiled regular expression was made from, as
/// `regex::Regex::as_str` returns it.
pub uninterp spec fn pattern_source(compiled: regex::Regex) -> Seq<char>;

/// Whether the regular expression `pattern` has a match anywhere in `text`,
/// as `regex::Regex::is_match` tells it.
pub uninterp spec fn pattern_found(pattern: Seq<char>, text: Seq<char>) -> bool;

/// `regex::Regex::new`: compiles `pattern`, or fails on a pattern that is
/// not a regular expression or is too large. Whether it succeeds depends on
/// the pattern alone, and the compiled expression remembers its pattern.
#[verifier::external_body]
pub(crate) fn compile(pattern: &str) -> (compiled: Result<regex::Regex, regex::Error>)
    ensures
        compiled is Ok <==> pattern_compiles(pattern@),
        compiled matches Ok(re) ==> pattern_source(re) == pattern@,
{
    regex::Regex::new(pattern)
}

/// `regex::Regex::is_match`: whether the expression has a match anywhere in
/// `text`. The answer depends on the pattern and the text alone.
#[verifier::external_body]
pub(crate) fn is_match(compiled: &regex::Regex, text: &str) -> (found: bool)
    ensures
        found == pattern_found(pattern_source(*compiled), text@),
{
    compiled.is_match(text)
}

/// The regular expression that stands for the pattern `pattern` read
/// without regard to case.
pub open spec fn caseless(pattern: Seq<char>) -> Seq<char> {
    "(?i)"@ + pattern
}

/// Whether the name `name` matches the pattern `pattern`: the pattern is a
/// regular expression and is found somewhere in the name, without regard to
/// case. A pattern that is no regular expression matches no name.
pub open spec fn name_matches(pattern: Seq<char>, name: Seq<char>) -> bool {
    pattern_compiles(caseless(pattern)) && pattern_found(caseless(pattern), name)
}

/// A process-name pattern, ready to be matched against many names.
pub struct NamePattern {
    source: String,
    /// The compiled pattern; none where the pattern is no regular
    /// expression.
    compiled: Option<regex::Regex>,
}

impl NamePattern {
    #[verifier::type_invariant]
    spec fn compiled_from_source(&self) -> bool {
        match self.compiled {
            Some(re) => pattern_compiles(caseless(self.source@)) && pattern_source(re) == caseless(
                self.source@,
            ),
            None => !pattern_compiles(caseless(self.source@)),
        }
    }

    /// The pattern as it was given.
    pub closed spec fn pattern(&self) -> Seq<char> {
        self.source@
    }

    /// Makes the pattern `pattern` ready.
    pub fn new(pattern: &str) -> (ready: NamePattern)
        ensures
            ready.pattern() == pattern@,
    {
        let mut expression = String::from_str("(?i)");
        expression.append(pattern);
        let compiled = match compile(expression.as_str()) {
            Ok(re) => Some(re),
            Err(_) => None,
        };
        NamePattern { source: String::from_str(pattern), compiled }
    }

    /// Whether `name` matches the pattern.
    pub fn matches(&self, name: &str) -> (matched: bool)
        ensures
            matched == name_matches(self.pattern(), name@),
    {
        proof {
            use_type_invariant(self);
        }
        match &self.compiled {
            Some(re) => is_match(re, name),
            None => false,
        }
    }
}

/// Tells whether the name `name` matches the pattern `pattern`.
pub fn name_matches_pattern(pattern: &str, name: &str) -> (matched: bool)
    ensures
        matched == name_matches(pattern@, name@),
{
    NamePattern::new(pattern).matches(name)
}

} // verus!
