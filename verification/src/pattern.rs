use vstd::prelude::*;

verus! {

/// `regex::Regex`, a compiled regular expression, known to Verus as an
/// opaque type.
#[verifier::external_type_specification]
#[verifier::external_body]
pub struct ExRegex(regex::Regex);

/// `regex::Error`, what compiling a pattern can fail with, known to Verus as
/// an opaque type.
#[verifier::external_type_specification]
#[verifier::external_body]
pub struct ExRegexError(regex::Error);

/// Whether the regular expression `pattern` matches somewhere in `haystack`
/// (what `regex::Regex::is_match` answers for a regex compiled from
/// `pattern`).
pub uninterp spec fn regex_matches(pattern: Seq<char>, haystack: Seq<char>) -> bool;

/// The text of capture group `group` in the first match of `pattern` in
/// `haystack`, if there is a match and the group took part in it (what
/// `regex::Regex::captures` and `regex::Captures::get` give).
pub uninterp spec fn regex_group(pattern: Seq<char>, haystack: Seq<char>, group: usize) -> Option<
    Seq<char>,
>;

/// Whether `regex::Regex::new` accepts `pattern`: it is valid and its
/// compiled form fits the default size limit.
pub uninterp spec fn regex_compiles(pattern: Seq<char>) -> bool;

/// A regular expression together with the pattern it was compiled from.
pub struct Pattern {
    source: String,
    re: regex::Regex,
}

impl Pattern {
    /// The pattern this regular expression was compiled from.
    pub closed spec fn source(&self) -> Seq<char> {
        self.source@
    }

    /// Compiles a pattern (`regex::Regex::new`). Trusted: on success the
    /// regular expression is the one `pattern` denotes, which is all that
    /// `source` records; an invalid pattern, or one too big for the default
    /// size limit, gives the crate's error. Whether it succeeds is named
    /// `regex_compiles` of the pattern: it builds with the default
    /// configuration and depends on nothing else.
    #[verifier::external_body]
    pub(crate) fn compile(pattern: &str) -> (r: Result<Pattern, regex::Error>)
        ensures
            r is Ok <==> regex_compiles(pattern@),
            r matches Ok(p) ==> p.source() == pattern@,
    {
        match regex::Regex::new(pattern) {
            Ok(re) => Ok(Pattern { source: pattern.to_string(), re }),
            Err(e) => Err(e),
        }
    }

    /// Whether the regular expression matches anywhere in `haystack`
    /// (`regex::Regex::is_match`). Trusted: the answer is named
    /// `regex_matches` of the pattern and the haystack, and depends on nothing
    /// else.
    #[verifier::external_body]
    pub(crate) fn is_match(&self, haystack: &str) -> (r: bool)
        ensures
            r == regex_matches(self.source(), haystack@),
    {
        self.re.is_match(haystack)
    }

    /// The text of a capture group of the first match in `haystack`
    /// (`regex::Regex::captures`, then `regex::Captures::get` and
    /// `regex::Match::as_str`). Trusted: the result is named `regex_group` of
    /// the pattern, the haystack and the group; the documentation gives that
    /// there is no result when there is no match.
    #[verifier::external_body]
    pub(crate) fn group(&self, haystack: &str, group: usize) -> (r: Option<String>)
        ensures
            r is None <==> regex_group(self.source(), haystack@, group) is None,
            r matches Some(s) ==> regex_group(self.source(), haystack@, group) == Some(s@),
            !regex_matches(self.source(), haystack@) ==> r is None,
    {
        match self.re.captures(haystack) {
            Some(caps) => match caps.get(group) {
                Some(m) => Some(m.as_str().to_string()),
                None => None,
            },
            None => None,
        }
    }
}

} // verus!
