//! The selection engine: which of the files that a directory walk meets are
//! picked by a set of include and exclude patterns and an allow-list of
//! extensions.
//!
//! A path is text with `/` between its components, read as [`crate::paths`]
//! reads it.
use crate::pattern::{
    is_pattern, pattern_fault, pattern_matches, InvalidPattern, PatternMatcher,
};
use crate::paths::{
    dotted_form, dotted_path, extension_of, extension_range, relative_form, relative_path,
};
use crate::text::{chars_of, trim_quotes, trimmed_of_quotes};
use vstd::hash_set::StringHashSet;
use vstd::prelude::*;

verus! {

/// A file extension that the library works on.
#[derive(Clone, Copy, Debug, PartialEq, Eq)]
pub enum Extension {
    Json,
}

impl Extension {
    /// The extension as it is written behind the dot.
    pub open spec fn text(self) -> Seq<char> {
        match self {
            Extension::Json => seq!['j', 's', 'o', 'n'],
        }
    }

    /// The extension as it is written behind the dot.
    pub fn as_str(&self) -> (text: &'static str)
        ensures
            text@ == self.text(),
    {
        match self {
            Extension::Json => {
                proof {
                    reveal_strlit("json");
                }
                assert("json"@ =~= seq!['j', 's', 'o', 'n']);
                "json"
            },
        }
    }
}

/// Whether the extension of `path` is one of `allowed`.
pub open spec fn extension_allowed(path: Seq<char>, allowed: Seq<Extension>) -> bool {
    match extension_of(path) {
        None => false,
        Some(extension) => exists|i: int|
            0 <= i < allowed.len() && (#[trigger] allowed[i]).text() == extension,
    }
}

/// Whether `chars` from `from` up to `to` reads as `text`.
fn reads_as(chars: &Vec<char>, from: usize, to: usize, text: &Vec<char>) -> (same: bool)
    requires
        from <= to <= chars.len(),
    ensures
        same == (chars@.subrange(from as int, to as int) == text@),
{
    if to - from != text.len() {
        return false;
    }
    let mut i: usize = 0;
    while i < text.len()
        invariant
            from <= to <= chars.len(),
            to - from == text.len(),
            i <= text.len(),
            forall|k: int| 0 <= k < i ==> chars[from + k] == text[k],
        decreases text.len() - i,
    {
        if chars[from + i] != text[i] {
            assert(chars@.subrange(from as int, to as int)[i as int] != text@[i as int]);
            return false;
        }
        i += 1;
    }
    assert(chars@.subrange(from as int, to as int) =~= text@);
    true
}

/// Whether the extension of `path` is one of `allowed_extensions`.
pub fn has_allowed_extension(path: &str, allowed_extensions: &Vec<Extension>) -> (allowed: bool)
    ensures
        allowed == extension_allowed(path@, allowed_extensions@),
{
    let chars = chars_of(path);
    match extension_range(&chars) {
        None => false,
        Some((start, end)) => {
            let ghost extension = chars@.subrange(start as int, end as int);
            let mut i: usize = 0;
            while i < allowed_extensions.len()
                invariant
                    start <= end <= chars.len(),
                    chars@ == path@,
                    extension == chars@.subrange(start as int, end as int),
                    extension_of(path@) == Some(extension),
                    i <= allowed_extensions.len(),
                    forall|k: int|
                        0 <= k < i ==> (#[trigger] allowed_extensions[k]).text() != extension,
                decreases allowed_extensions.len() - i,
            {
                let text = chars_of(allowed_extensions[i].as_str());
                if reads_as(&chars, start, end, &text) {
                    assert(allowed_extensions@[i as int].text() == extension);
                    return true;
                }
                i += 1;
            }
            false
        },
    }
}

/// The texts that `patterns` were compiled from.
pub open spec fn pattern_texts(patterns: &Vec<PatternMatcher>) -> Seq<Seq<char>> {
    Seq::new(patterns.len() as nat, |i: int| patterns[i]@)
}

/// Whether one of `patterns` matches `path` as it is written.
pub open spec fn matches_any(patterns: Seq<Seq<char>>, path: Seq<char>) -> bool {
    exists|i: int| 0 <= i < patterns.len() && pattern_matches(#[trigger] patterns[i], path)
}

/// Whether one of `patterns` matches `path` in one of its two forms.
pub open spec fn matches_either_form(patterns: Seq<Seq<char>>, path: Seq<char>) -> bool {
    matches_any(patterns, dotted_form(path)) || matches_any(patterns, relative_form(path))
}

/// Whether the pattern set picks `path`: an include pattern matches one of
/// its forms, no exclude pattern matches either, and its extension is one of
/// `allowed`.
pub open spec fn selects(
    includes: Seq<Seq<char>>,
    excludes: Seq<Seq<char>>,
    allowed: Seq<Extension>,
    path: Seq<char>,
) -> bool {
    &&& matches_either_form(includes, path)
    &&& !matches_either_form(excludes, path)
    &&& extension_allowed(relative_form(path), allowed)
}

/// Whether one of `patterns` matches `path` as it is written.
pub fn matches_patterns(patterns: &Vec<PatternMatcher>, path: &str) -> (matched: bool)
    ensures
        matched == matches_any(pattern_texts(patterns), path@),
{
    let mut i: usize = 0;
    while i < patterns.len()
        invariant
            i <= patterns.len(),
            forall|k: int| 0 <= k < i ==> !pattern_matches(#[trigger] pattern_texts(patterns)[k], path@),
        decreases patterns.len() - i,
    {
        if patterns[i].matches(path) {
            assert(pattern_matches(pattern_texts(patterns)[i as int], path@));
            return true;
        }
        i += 1;
    }
    false
}

/// Whether one of the exclude patterns `patterns` matches `path` as it is
/// written.
pub fn matches_exclude_patterns(patterns: &Vec<PatternMatcher>, path: &str) -> (matched: bool)
    ensures
        matched == matches_any(pattern_texts(patterns), path@),
{
    matches_patterns(patterns, path)
}

/// The patterns of `patterns`, each without the quotation marks around it.
pub open spec fn trimmed_texts(patterns: Seq<String>) -> Seq<Seq<char>> {
    Seq::new(patterns.len(), |i: int| trim_quotes(patterns[i]@))
}

/// Whether every text of `texts` is a pattern.
pub open spec fn all_patterns(texts: Seq<Seq<char>>) -> bool {
    forall|i: int| 0 <= i < texts.len() ==> is_pattern(#[trigger] texts[i])
}

/// Whether `error` tells what is wrong with the first text of `texts` that is
/// no pattern.
pub open spec fn is_first_fault(texts: Seq<Seq<char>>, error: InvalidPattern) -> bool {
    exists|i: int|
        {
            &&& 0 <= i < texts.len()
            &&& all_patterns(texts.take(i))
            &&& error.pattern@ == #[trigger] texts[i]
            &&& pattern_fault(texts[i]) == Some((error.position, error.reason@))
        }
}

/// Compiles `patterns`, each trimmed of the quotation marks around it.
///
/// Succeeds exactly where each of them is a pattern, and then returns one
/// matcher for each, in order. Otherwise the error is that of the first
/// which is none.
pub fn create_patterns(patterns: &Vec<String>) -> (result: Result<Vec<PatternMatcher>, InvalidPattern>)
    ensures
        match result {
            Ok(matchers) => all_patterns(trimmed_texts(patterns@)) && pattern_texts(&matchers)
                == trimmed_texts(patterns@),
            Err(error) => is_first_fault(trimmed_texts(patterns@), error),
        },
{
    let ghost texts = trimmed_texts(patterns@);
    let mut matchers: Vec<PatternMatcher> = Vec::new();
    let mut i: usize = 0;
    while i < patterns.len()
        invariant
            i <= patterns.len(),
            texts == trimmed_texts(patterns@),
            matchers.len() == i,
            forall|k: int| 0 <= k < i ==> is_pattern(#[trigger] texts[k]) && matchers[k]@ == texts[k],
        decreases patterns.len() - i,
    {
        match PatternMatcher::new(trimmed_of_quotes(patterns[i].as_str())) {
            Ok(matcher) => {
                matchers.push(matcher);
            },
            Err(error) => {
                assert(error.pattern@ == texts[i as int]);
                assert(all_patterns(texts.take(i as int)));
                return Err(error);
            },
        }
        i += 1;
    }
    assert(pattern_texts(&matchers) =~= texts);
    Ok(matchers)
}

/// What a directory walk meets, one entry at a time.
#[derive(Debug, PartialEq, Eq)]
pub enum WalkEntry {
    /// A regular file, with its path as the walk gives it.
    File(String),
    /// A directory, a link, or anything else that is no regular file.
    Other,
    /// An entry that could not be read, with its depth below the root of the
    /// walk where that is known; the root itself has depth 0.
    Unreadable { depth: Option<usize>, reason: String },
}

/// Why no selection was made.
#[derive(Debug, PartialEq, Eq)]
pub enum SelectionError {
    /// An include or exclude pattern is no glob pattern.
    Pattern(InvalidPattern),
    /// The root of the walk cannot be read.
    Root(String),
}

/// The texts of `files`.
pub open spec fn texts_of(files: &Vec<String>) -> Seq<Seq<char>> {
    Seq::new(files.len() as nat, |i: int| files[i]@)
}

/// What a walk over `entries` selects.
///
/// The entries are taken in order. A file is added where the pattern set
/// [`selects`] it and it was not added before; an unreadable entry below the
/// root, or at an unknown depth, is passed over, as is what is no file; an
/// unreadable root ends the walk with its reason.
pub open spec fn walked(
    includes: Seq<Seq<char>>,
    excludes: Seq<Seq<char>>,
    allowed: Seq<Extension>,
    entries: Seq<WalkEntry>,
) -> Result<Seq<Seq<char>>, Seq<char>>
    decreases entries.len(),
{
    if entries.len() == 0 {
        Ok(Seq::empty())
    } else {
        match walked(includes, excludes, allowed, entries.drop_last()) {
            Err(reason) => Err(reason),
            Ok(found) => match entries.last() {
                WalkEntry::File(path) => if selects(includes, excludes, allowed, path@)
                    && !found.contains(path@) {
                    Ok(found.push(path@))
                } else {
                    Ok(found)
                },
                WalkEntry::Other => Ok(found),
                WalkEntry::Unreadable { depth, reason } => if depth == Some(0usize) {
                    Err(reason@)
                } else {
                    Ok(found)
                },
            },
        }
    }
}

/// A compiled pattern set with its allow-list of extensions, and whether the
/// walk that feeds it is to honour ignore rules.
#[derive(Debug)]
pub struct FileSelector {
    pub includes: Vec<PatternMatcher>,
    pub excludes: Vec<PatternMatcher>,
    pub allowed_extensions: Vec<Extension>,
    pub respect_ignore_rules: bool,
}

impl FileSelector {
    /// Compiles the pattern set: the include patterns first, then the exclude
    /// patterns, each trimmed of the quotation marks around it.
    ///
    /// Succeeds exactly where each of them is a pattern; otherwise the error
    /// is that of the first which is none.
    pub fn new(
        include_patterns: &Vec<String>,
        exclude_patterns: &Option<Vec<String>>,
        allowed_extensions: Vec<Extension>,
        respect_ignore_rules: bool,
    ) -> (result: Result<FileSelector, InvalidPattern>)
        ensures
            match result {
                Ok(selector) => {
                    &&& all_patterns(trimmed_texts(include_patterns@))
                    &&& all_patterns(exclude_texts(*exclude_patterns))
                    &&& pattern_texts(&selector.includes) == trimmed_texts(include_patterns@)
                    &&& pattern_texts(&selector.excludes) == exclude_texts(*exclude_patterns)
                    &&& selector.allowed_extensions == allowed_extensions
                    &&& selector.respect_ignore_rules == respect_ignore_rules
                },
                Err(error) => is_pattern_fault(include_patterns@, *exclude_patterns, error),
            },
    {
        let includes = match create_patterns(include_patterns) {
            Ok(includes) => includes,
            Err(error) => {
                return Err(error);
            },
        };
        let excludes = match exclude_patterns {
            None => Vec::new(),
            Some(patterns) => match create_patterns(patterns) {
                Ok(excludes) => excludes,
                Err(error) => {
                    return Err(error);
                },
            },
        };
        assert(pattern_texts(&excludes) =~= exclude_texts(*exclude_patterns));
        Ok(FileSelector { includes, excludes, allowed_extensions, respect_ignore_rules })
    }

    /// Whether the pattern set picks `path`.
    pub fn is_selected(&self, path: &str) -> (selected: bool)
        ensures
            selected == selects(
                pattern_texts(&self.includes),
                pattern_texts(&self.excludes),
                self.allowed_extensions@,
                path@,
            ),
    {
        let relative = relative_path(path);
        let dotted = dotted_path(path);
        (matches_patterns(&self.includes, dotted.as_str()) || matches_patterns(
            &self.includes,
            relative,
        )) && !(matches_exclude_patterns(&self.excludes, dotted.as_str())
            || matches_exclude_patterns(&self.excludes, relative)) && has_allowed_extension(
            relative,
            &self.allowed_extensions,
        )
    }

    /// Selects among the entries of a walk, in the order of the walk.
    ///
    /// Fails exactly where the walk could not read its root, with the reason
    /// of the first such entry.
    pub fn select(&self, entries: &Vec<WalkEntry>) -> (result: Result<Vec<String>, SelectionError>)
        ensures
            match result {
                Ok(files) => walked(
                    pattern_texts(&self.includes),
                    pattern_texts(&self.excludes),
                    self.allowed_extensions@,
                    entries@,
                ) == Ok::<Seq<Seq<char>>, Seq<char>>(texts_of(&files)),
                Err(SelectionError::Root(reason)) => walked(
                    pattern_texts(&self.includes),
                    pattern_texts(&self.excludes),
                    self.allowed_extensions@,
                    entries@,
                ) == Err::<Seq<Seq<char>>, Seq<char>>(reason@),
                Err(SelectionError::Pattern(_)) => false,
            },
    {
        let ghost includes = pattern_texts(&self.includes);
        let ghost excludes = pattern_texts(&self.excludes);
        let ghost allowed = self.allowed_extensions@;
        let mut files: Vec<String> = Vec::new();
        let mut seen = StringHashSet::new();
        let mut i: usize = 0;
        assert(entries@.take(0) =~= Seq::empty());
        assert(texts_of(&files) =~= Seq::empty());
        while i < entries.len()
            invariant
                i <= entries.len(),
                includes == pattern_texts(&self.includes),
                excludes == pattern_texts(&self.excludes),
                allowed == self.allowed_extensions@,
                walked(includes, excludes, allowed, entries@.take(i as int)) == Ok::<
                    Seq<Seq<char>>,
                    Seq<char>,
                >(texts_of(&files)),
                forall|text: Seq<char>| seen@.contains(text) <==> texts_of(&files).contains(text),
            decreases entries.len() - i,
        {
            let ghost found = texts_of(&files);
            assert(entries@.take(i + 1).drop_last() =~= entries@.take(i as int));
            match &entries[i] {
                WalkEntry::File(path) => {
                    if self.is_selected(path.as_str()) && !seen.contains(path.as_str()) {
                        seen.insert(path.clone());
                        files.push(path.clone());
                        proof {
                            let longer = texts_of(&files);
                            assert(longer =~= found.push(path@));
                            assert forall|text: Seq<char>| seen@.contains(text) <==> longer.contains(
                                text,
                            ) by {
                                if found.contains(text) {
                                    let k = choose|k: int| 0 <= k < found.len() && found[k] == text;
                                    assert(longer[k] == text);
                                }
                                if text == path@ {
                                    assert(longer[found.len() as int] == text);
                                }
                            }
                        }
                    }
                },
                WalkEntry::Other => {},
                WalkEntry::Unreadable { depth, reason } => {
                    let at_root = match depth {
                        Some(depth) => *depth == 0,
                        None => false,
                    };
                    if at_root {
                        proof {
                            lemma_walk_fails_for_good(
                                includes,
                                excludes,
                                allowed,
                                entries@,
                                i + 1,
                            );
                        }
                        return Err(SelectionError::Root(reason.clone()));
                    }
                },
            }
            i += 1;
        }
        assert(entries@.take(i as int) =~= entries@);
        Ok(files)
    }
}

/// The exclude patterns, each without the quotation marks around it; none
/// where none are given.
pub open spec fn exclude_texts(patterns: Option<Vec<String>>) -> Seq<Seq<char>> {
    match patterns {
        None => Seq::empty(),
        Some(patterns) => trimmed_texts(patterns@),
    }
}

/// Whether `error` tells what is wrong with the first pattern that is none:
/// the include patterns come first, then the exclude patterns.
pub open spec fn is_pattern_fault(
    include_patterns: Seq<String>,
    exclude_patterns: Option<Vec<String>>,
    error: InvalidPattern,
) -> bool {
    if all_patterns(trimmed_texts(include_patterns)) {
        is_first_fault(exclude_texts(exclude_patterns), error)
    } else {
        is_first_fault(trimmed_texts(include_patterns), error)
    }
}

/// A walk that has failed stays failed, whatever entries follow.
pub proof fn lemma_walk_fails_for_good(
    includes: Seq<Seq<char>>,
    excludes: Seq<Seq<char>>,
    allowed: Seq<Extension>,
    entries: Seq<WalkEntry>,
    upto: int,
)
    requires
        0 <= upto <= entries.len(),
        walked(includes, excludes, allowed, entries.take(upto)) is Err,
    ensures
        walked(includes, excludes, allowed, entries) == walked(
            includes,
            excludes,
            allowed,
            entries.take(upto),
        ),
    decreases entries.len() - upto,
{
    if upto < entries.len() {
        assert(entries.drop_last().take(upto) =~= entries.take(upto));
        lemma_walk_fails_for_good(includes, excludes, allowed, entries.drop_last(), upto);
    } else {
        assert(entries.take(upto) =~= entries);
    }
}

/// Selects among the entries of a walk by the given patterns and extensions.
///
/// Fails where a pattern is no glob pattern (the include patterns are
/// compiled first), and otherwise where the walk could not read its root.
pub fn list_files(
    entries: &Vec<WalkEntry>,
    include_patterns: &Vec<String>,
    exclude_patterns: &Option<Vec<String>>,
    allowed_extensions: Vec<Extension>,
) -> (result: Result<Vec<String>, SelectionError>)
    ensures
        match result {
            Err(SelectionError::Pattern(error)) => is_pattern_fault(
                include_patterns@,
                *exclude_patterns,
                error,
            ),
            Err(SelectionError::Root(reason)) => {
                &&& all_patterns(trimmed_texts(include_patterns@))
                &&& all_patterns(exclude_texts(*exclude_patterns))
                &&& walked(
                    trimmed_texts(include_patterns@),
                    exclude_texts(*exclude_patterns),
                    allowed_extensions@,
                    entries@,
                ) == Err::<Seq<Seq<char>>, Seq<char>>(reason@)
            },
            Ok(files) => {
                &&& all_patterns(trimmed_texts(include_patterns@))
                &&& all_patterns(exclude_texts(*exclude_patterns))
                &&& walked(
                    trimmed_texts(include_patterns@),
                    exclude_texts(*exclude_patterns),
                    allowed_extensions@,
                    entries@,
                ) == Ok::<Seq<Seq<char>>, Seq<char>>(texts_of(&files))
            },
        },
{
    match FileSelector::new(include_patterns, exclude_patterns, allowed_extensions, true) {
        Err(error) => Err(SelectionError::Pattern(error)),
        Ok(selector) => selector.select(entries),
    }
}

} // verus!
