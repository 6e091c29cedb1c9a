//! A compiled regular expression that remembers its pattern text, so
//! that contracts can speak about matching as a function of the pattern.

use vstd::prelude::*;

verus! {

#[verifier::external_type_specification]
#[verifier::external_body]
pub struct ExRegex(::regex::Regex);

#[verifier::external_type_specification]
#[verifier::external_body]
pub struct ExRegexError(::regex::Error);

/// What regular-expression matching returns: whether the pattern,
/// compiled by the regex crate, matches anywhere in the text. The
/// result depends on the pattern and the text alone.
pub uninterp spec fn regex_match_of(pattern: Seq<char>, text: Seq<char>) -> bool;

/// Whether the regex crate accepts a pattern (compilation succeeds).
/// Acceptance depends on the pattern text alone.
pub uninterp spec fn regex_accepts(pattern: Seq<char>) -> bool;

/// A compiled regular expression together with the pattern it was
/// compiled from. The pattern is what contracts and equality see.
#[derive(Debug)]
pub struct Pattern {
    pattern: String,
    compiled: ::regex::Regex,
}

impl Pattern {
    /// The pattern this value was compiled from.
    pub closed spec fn pattern(&self) -> Seq<char> {
        self.pattern@
    }

    /// Relies on regex::Regex::new: compiles the pattern, failing
    /// exactly when the regex crate rejects it; the compiled value then
    /// matches per the crate's semantics for this pattern.
    #[verifier::external_body]
    pub fn new(pattern: &str) -> (r: Result<Pattern, ::regex::Error>)
        ensures
            r is Ok <==> regex_accepts(pattern@),
            r is Ok ==> r->Ok_0.pattern() == pattern@,
    {
        ::regex::Regex::new(pattern).map(
            |compiled| Pattern { pattern: pattern.to_string(), compiled },
        )
    }

    /// Relies on regex::Regex::is_match: true exactly when the pattern
    /// this value was compiled from matches anywhere in the text.
    #[verifier::external_body]
    pub fn is_match(&self, text: &str) -> (r: bool)
        ensures
            r == regex_match_of(self.pattern(), text@),
    {
        self.compiled.is_match(text)
    }

    /// The pattern text.
    pub fn as_str(&self) -> (r: &str)
        ensures
            r@ == self.pattern(),
    {
        self.pattern.as_str()
    }
}

impl Clone for Pattern {
    /// The clone keeps the pattern; relies on regex::Regex::clone
    /// cloning the same compiled pattern.
    #[verifier::external_body]
    fn clone(&self) -> (r: Pattern)
        ensures
            r.pattern() == self.pattern(),
    {
        Pattern { pattern: self.pattern.clone(), compiled: self.compiled.clone() }
    }
}

impl PartialEq for Pattern {
    fn eq(&self, other: &Pattern) -> (r: bool) {
        self.pattern == other.pattern
    }
}

impl vstd::std_specs::cmp::PartialEqSpecImpl for Pattern {
    closed spec fn obeys_eq_spec() -> bool {
        true
    }

    closed spec fn eq_spec(&self, other: &Pattern) -> bool {
        self.pattern@ == other.pattern@
    }
}

} // verus!
