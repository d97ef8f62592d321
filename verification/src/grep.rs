//! `grep`: which lines of a text match a regular expression.
use vstd::prelude::*;

verus! {

#[verifier::external_type_specification]
#[verifier::external_body]
pub struct ExRegex(regex::Regex);

#[verifier::external_type_specification]
#[verifier::external_body]
pub struct ExRegexError(regex::Error);

/// Whether `regex::Regex::new` accepts `pattern`: it is valid regular
/// expression syntax and compiles within the default size limit.
pub uninterp spec fn regex_compiles(pattern: Seq<char>) -> bool;

/// Whether the regular expression `pattern` matches somewhere in `haystack`,
/// as `regex::Regex::is_match` decides.
pub uninterp spec fn regex_matches(pattern: Seq<char>, haystack: Seq<char>) -> bool;

/// A compiled regular expression together with the text it was compiled
/// from. Only `regex_new`, a trusted item, builds one, and it sets `source`
/// to the text it hands to `regex::Regex::new`.
pub struct Pattern {
    re: regex::Regex,
    source: Ghost<Seq<char>>,
}

/// `regex::Regex::new`: succeeds exactly on the patterns that compile; the
/// compiled expression is kept with the text it was compiled from.
#[verifier::external_body]
fn regex_new(pattern: &str) -> (r: Result<Pattern, regex::Error>)
    ensures
        r is Ok <==> regex_compiles(pattern@),
        r matches Ok(p) ==> p.source() == pattern@,
{
    match regex::Regex::new(pattern) {
        Ok(re) => Ok(Pattern { re, source: Ghost(pattern@) }),
        Err(e) => Err(e),
    }
}

impl Pattern {
    /// The text the expression was compiled from.
    pub closed spec fn source(&self) -> Seq<char> {
        self.source@
    }
}

/// `regex::Regex::is_match` on the compiled expression of `p`: whether it
/// matches somewhere in `haystack`. `p.re` was compiled from `p.source()`,
/// as `regex_new`, the only place that builds a `Pattern`, sets it.
#[verifier::external_body]
fn pattern_is_match(p: &Pattern, haystack: &str) -> (b: bool)
    ensures
        b == regex_matches(p.source(), haystack@),
{
    p.re.is_match(haystack)
}

/// Why `grep` stopped.
#[derive(Debug, Clone, Copy, PartialEq, Eq, Structural)]
pub enum GrepError {
    /// The pattern is not a regular expression that compiles.
    InvalidPattern,
}

impl Pattern {
    /// Compiles `pattern`.
    pub fn new(pattern: &str) -> (r: Result<Pattern, GrepError>)
        ensures
            r is Ok <==> regex_compiles(pattern@),
            r matches Ok(p) ==> p.source() == pattern@,
            r is Err ==> r == Err::<Pattern, GrepError>(GrepError::InvalidPattern),
    {
        match regex_new(pattern) {
            Ok(p) => Ok(p),
            Err(_) => Err(GrepError::InvalidPattern),
        }
    }

    /// Whether the expression matches somewhere in `line`.
    pub fn is_match(&self, line: &str) -> (b: bool)
        ensures
            b == regex_matches(self.source(), line@),
    {
        pattern_is_match(self, line)
    }
}

/// The decision `grep` makes for one line it read: the pattern is compiled
/// anew for each line, and the line is printed when it matches.
pub fn grep_line(pattern: &str, line: &str) -> (r: Result<bool, GrepError>)
    ensures
        r == (if regex_compiles(pattern@) {
            Ok::<bool, GrepError>(regex_matches(pattern@, line@))
        } else {
            Err(GrepError::InvalidPattern)
        }),
{
    let re = match Pattern::new(pattern) {
        Ok(re) => re,
        Err(e) => return Err(e),
    };
    Ok(re.is_match(line))
}

} // verus!
