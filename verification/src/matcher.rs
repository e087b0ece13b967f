//! The boundary around the `regex` crate.
//!
//! Everything the library needs from `regex` passes through this module:
//! compiling a pattern, testing for a match, and listing the byte offsets at
//! which the first capture group of a pattern matches. All three results are
//! functions of the pattern text and the searched text alone, so they are
//! named by uninterpreted spec functions that the wrappers' contracts apply.

use vstd::prelude::*;

verus! {

#[verifier::external_type_specification]
#[verifier::external_body]
pub struct ExRegex(regex::Regex);

/// Whether `regex::Regex::new` accepts the pattern.
pub uninterp spec fn pattern_compiles(pattern: Seq<char>) -> bool;

/// Whether the compiled pattern matches anywhere in the text
/// (`regex::Regex::is_match`).
pub uninterp spec fn pattern_matches(pattern: Seq<char>, text: Seq<char>) -> bool;

/// The byte offsets in the text's UTF-8 encoding at which the first capture
/// group of the pattern starts, one entry per non-overlapping match of the
/// whole pattern, scanning left to right (`regex::Regex::captures_iter`).
/// Matches in which the first capture group took no part contribute nothing.
pub uninterp spec fn capture_starts(pattern: Seq<char>, text: Seq<char>) -> Seq<int>;

/// A compiled pattern, paired with the pattern text it was compiled from.
///
/// Values only come out of [`CompiledRegex::compile`] (and
/// [`CompiledRegex::duplicate`]), so the regex held here is always the
/// compiled form of the stored pattern text, which is what makes the
/// contracts of the methods below true.
#[derive(Debug)]
pub struct CompiledRegex {
    regex: regex::Regex,
    source: String,
}

impl CompiledRegex {
    /// The pattern text this matcher was compiled from.
    pub closed spec fn pattern(&self) -> Seq<char> {
        self.source@
    }

    /// Relies on `regex::Regex::new`: whether a pattern compiles is a
    /// function of the pattern text alone. A failure comes back as the
    /// human-readable text of the `regex::Error`, about which nothing is
    /// promised.
    #[verifier::external_body]
    pub fn compile(pattern: &str) -> (r: Result<CompiledRegex, String>)
        ensures
            r is Ok <==> pattern_compiles(pattern@),
            r matches Ok(c) ==> c.pattern() == pattern@,
    {
        match regex::Regex::new(pattern) {
            Ok(regex) => Ok(CompiledRegex { regex, source: pattern.to_owned() }),
            Err(e) => Err(format!("{}", e)),
        }
    }

    /// Relies on `regex::Regex::is_match`: whether a pattern matches
    /// somewhere in a text is a function of the pattern and the text alone.
    #[verifier::external_body]
    pub fn is_match(&self, text: &str) -> (r: bool)
        ensures
            r == pattern_matches(self.pattern(), text@),
    {
        self.regex.is_match(text)
    }

    /// Relies on `regex::Regex::captures_iter`, `regex::Captures::get` and
    /// `regex::Match::start`: the matches found, and with them the start
    /// offsets of their first capture group, are a function of the pattern
    /// and the text alone.
    #[verifier::external_body]
    pub fn capture_group_starts(&self, text: &str) -> (r: Vec<usize>)
        ensures
            r@.len() == capture_starts(self.pattern(), text@).len(),
            forall|i: int|
                0 <= i < r@.len() ==> r@[i] as int == capture_starts(self.pattern(), text@)[i],
    {
        self.regex.captures_iter(text).filter_map(|c| c.get(1).map(|m| m.start())).collect()
    }

    /// Relies on `regex::Regex`'s `Clone` impl: the clone is compiled from
    /// the same pattern text.
    #[verifier::external_body]
    pub fn duplicate(&self) -> (r: CompiledRegex)
        ensures
            r.pattern() == self.pattern(),
    {
        CompiledRegex { regex: self.regex.clone(), source: self.source.clone() }
    }
}

} // verus!
