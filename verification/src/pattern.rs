//! Glob patterns: compiled by the `glob` crate, matched without regard to
//! letter case, and without `*` stopping at a separator or at a leading dot.
//!
//! What `glob` makes of a pattern and of a path is named here, not spelled
//! out. It depends on the texts alone, and on what the platform that the
//! library is built for takes for a path separator.
use glob::{MatchOptions, Pattern};
use vstd::prelude::*;

verus! {

/// `glob::Pattern`, a compiled pattern. Nothing of its inside is seen here.
#[verifier::external_type_specification]
#[verifier::external_body]
pub struct ExPattern(Pattern);

/// `glob::PatternError`, as `glob` declares it: the position `pos` and the
/// message `msg`, both public.
#[verifier::external_type_specification]
pub struct ExGlobPatternError(glob::PatternError);

/// What is wrong with `text` as a glob pattern, in the eyes of
/// `glob::Pattern::new`: the position and the message of its error, or `None`
/// where `text` compiles.
pub uninterp spec fn glob_fault(text: Seq<char>) -> Option<(usize, Seq<char>)>;

/// The text that a compiled pattern was compiled from, as
/// `glob::Pattern::as_str` gives it.
pub uninterp spec fn pattern_text(pattern: Pattern) -> Seq<char>;

/// Whether the pattern compiled from `pattern` matches `path` under the given
/// match options, as `glob::Pattern::matches_with` decides it.
pub uninterp spec fn glob_matches(
    pattern: Seq<char>,
    path: Seq<char>,
    case_sensitive: bool,
    require_literal_separator: bool,
    require_literal_leading_dot: bool,
) -> bool;

/// Whether `text` holds none of the characters `?`, `*` and `[`, with which
/// every wildcard of a pattern begins.
pub open spec fn is_literal(text: Seq<char>) -> bool {
    forall|i: int|
        0 <= i < text.len() ==> (#[trigger] text[i]) != '?' && text[i] != '*' && text[i] != '['
}

/// `glob::Pattern::new`. It parses `text` and nothing else, so its outcome is
/// a function of `text`: [`glob_fault`] names it. It refuses a text only at a
/// `*` or at a `[`, so a text without wildcard characters compiles. A pattern
/// that it returns keeps `text` as its source.
#[verifier::external_body]
fn compile(text: &str) -> (result: Result<Pattern, glob::PatternError>)
    ensures
        is_literal(text@) ==> result is Ok,
        match result {
            Ok(pattern) => glob_fault(text@) is None && pattern_text(pattern) == text@,
            Err(error) => glob_fault(text@) == Some((error.pos, error.msg@)),
        },
{
    Pattern::new(text)
}

/// `glob::Pattern::as_str`: the source of a compiled pattern.
#[verifier::external_body]
fn source_of(pattern: &Pattern) -> (text: &str)
    ensures
        text@ == pattern_text(*pattern),
{
    pattern.as_str()
}

/// `glob::Pattern::matches_with`, with the three fields of its `MatchOptions`
/// as arguments. A compiled pattern holds what `Pattern::new` made of its
/// source and is never changed, so the verdict is a function of that source,
/// of `path` and of the options: [`glob_matches`] names it. A source without
/// wildcard characters is compiled to its characters one by one, and each
/// matches itself whatever the options, so such a pattern matches its own
/// text.
#[verifier::external_body]
fn matches_with(
    pattern: &Pattern,
    path: &str,
    case_sensitive: bool,
    require_literal_separator: bool,
    require_literal_leading_dot: bool,
) -> (matched: bool)
    ensures
        matched == glob_matches(
            pattern_text(*pattern),
            path@,
            case_sensitive,
            require_literal_separator,
            require_literal_leading_dot,
        ),
        is_literal(pattern_text(*pattern)) && path@ == pattern_text(*pattern) ==> matched,
{
    pattern.matches_with(
        path,
        MatchOptions { case_sensitive, require_literal_separator, require_literal_leading_dot },
    )
}

/// Why a text was refused as a pattern.
#[derive(Debug, PartialEq, Eq)]
pub struct InvalidPattern {
    /// The text that was refused.
    pub pattern: String,
    /// The approximate index of the character at which parsing failed.
    pub position: usize,
    /// What was found wrong there.
    pub reason: String,
}

/// A compiled glob pattern. Its view is the text it was compiled from.
#[derive(Debug)]
pub struct PatternMatcher {
    compiled: Pattern,
}

impl View for PatternMatcher {
    type V = Seq<char>;

    closed spec fn view(&self) -> Seq<char> {
        pattern_text(self.compiled)
    }
}

/// What is wrong with `text` as a pattern: nothing where it holds no
/// wildcard character, and else what `glob` finds wrong with it.
pub open spec fn pattern_fault(text: Seq<char>) -> Option<(usize, Seq<char>)> {
    if is_literal(text) {
        None
    } else {
        glob_fault(text)
    }
}

/// Whether `text` is a syntactically valid glob pattern.
pub open spec fn is_pattern(text: Seq<char>) -> bool {
    pattern_fault(text) is None
}

/// Whether the pattern `pattern` matches `path` under this library's policy:
/// letter case is ignored, a wildcard may run across separators, and a
/// leading dot needs no literal dot in the pattern. A pattern without
/// wildcard characters matches its own text; every other verdict is `glob`'s.
pub open spec fn pattern_matches(pattern: Seq<char>, path: Seq<char>) -> bool {
    (is_literal(pattern) && path == pattern) || glob_matches(pattern, path, false, false, false)
}

impl PatternMatcher {
    /// Compiles `text`.
    ///
    /// Succeeds exactly where `text` is a pattern; the error tells where and
    /// why it is none.
    pub fn new(text: &str) -> (result: Result<PatternMatcher, InvalidPattern>)
        ensures
            match result {
                Ok(matcher) => is_pattern(text@) && matcher@ == text@,
                Err(error) => pattern_fault(text@) == Some((error.position, error.reason@))
                    && error.pattern@ == text@,
            },
    {
        match compile(text) {
            Ok(compiled) => Ok(PatternMatcher { compiled }),
            Err(error) => Err(
                InvalidPattern {
                    pattern: text.to_owned(),
                    position: error.pos,
                    reason: error.msg.to_owned(),
                },
            ),
        }
    }

    /// The text that the pattern was compiled from.
    pub fn as_str(&self) -> (text: &str)
        ensures
            text@ == self@,
    {
        source_of(&self.compiled)
    }

    /// Whether the pattern matches `path` as it is written.
    pub fn matches(&self, path: &str) -> (matched: bool)
        ensures
            matched == pattern_matches(self@, path@),
    {
        matches_with(&self.compiled, path, false, false, false)
    }
}

} // verus!
