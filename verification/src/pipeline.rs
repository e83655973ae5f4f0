//! One run over a selection of files: its start, what is done to each
//! document, and the tally at its end.
//!
//! Reading, parsing, printing and writing are the host's; what is computed in
//! between is here.
use crate::config::Configuration;
use crate::files::{
    all_patterns, exclude_texts, is_pattern_fault, pattern_texts, trimmed_texts, Extension,
    FileSelector,
};
use crate::indent::{get_indent, indent_of};
use crate::json::Json;
use crate::pattern::InvalidPattern;
use crate::sort::{as_levels, levels_left, rearranged, sort, sorted};
use crate::SortOrder;
use vstd::prelude::*;
use vstd::string::StringExecFns;

verus! {

/// Why a run ended before any file was touched.
#[derive(Debug, PartialEq, Eq)]
pub enum RunError {
    /// No include pattern was given.
    NoIncludePatterns,
    /// An include or exclude pattern is no glob pattern.
    Pattern(InvalidPattern),
}

/// The extensions of the files that a run works on.
pub open spec fn run_extensions() -> Seq<Extension> {
    seq![Extension::Json]
}

/// Starts a run: checks the settings and compiles the pattern set, for the
/// files with the extensions of [`run_extensions`].
///
/// Fails where no include pattern is given, and else where a pattern is no
/// glob pattern. The walk and the selection are still to come; an empty
/// selection is no failure.
pub fn prepare(cfg: &Configuration) -> (result: Result<FileSelector, RunError>)
    ensures
        match result {
            Err(RunError::NoIncludePatterns) => cfg.include_patterns.len() == 0,
            Err(RunError::Pattern(error)) => {
                &&& cfg.include_patterns.len() > 0
                &&& is_pattern_fault(cfg.include_patterns@, cfg.exclude_patterns, error)
            },
            Ok(selector) => {
                &&& cfg.include_patterns.len() > 0
                &&& all_patterns(trimmed_texts(cfg.include_patterns@))
                &&& all_patterns(exclude_texts(cfg.exclude_patterns))
                &&& pattern_texts(&selector.includes) == trimmed_texts(cfg.include_patterns@)
                &&& pattern_texts(&selector.excludes) == exclude_texts(cfg.exclude_patterns)
                &&& selector.allowed_extensions@ == run_extensions()
                &&& selector.respect_ignore_rules == cfg.respect_ignore_rules
            },
        },
{
    if cfg.include_patterns.len() == 0 {
        return Err(RunError::NoIncludePatterns);
    }
    let mut extensions: Vec<Extension> = Vec::new();
    extensions.push(Extension::Json);
    assert(extensions@ =~= run_extensions());
    match FileSelector::new(
        &cfg.include_patterns,
        &cfg.exclude_patterns,
        extensions,
        cfg.respect_ignore_rules,
    ) {
        Ok(selector) => Ok(selector),
        Err(error) => Err(RunError::Pattern(error)),
    }
}

/// How a sorted document is to be written back.
#[derive(Debug, PartialEq, Eq)]
pub struct WritePlan {
    /// The indent to print with.
    pub indent: String,
    /// Whether the file is copied aside first.
    pub backup: bool,
}

/// What becomes of one document.
#[derive(Debug, PartialEq, Eq)]
pub struct Rewrite {
    /// The document with its keys in order.
    pub tree: Json,
    /// How to write it back; `None` where nothing is written.
    pub plan: Option<WritePlan>,
}

/// Sorts one document as `cfg` asks, and says how it is to be written back.
///
/// `json` is the document as parsed and `data` the text it was parsed from,
/// which shows the indent to keep.
pub fn rewrite(json: &Json, data: &str, cfg: &Configuration) -> (done: Rewrite)
    ensures
        cfg.order != SortOrder::Random ==> done.tree@ == sorted(
            json@,
            cfg.order,
            levels_left(0, as_levels(cfg.depth)),
        ),
        rearranged(json@, done.tree@, levels_left(0, as_levels(cfg.depth))),
        match done.plan {
            None => !cfg.write,
            Some(plan) => cfg.write && plan.backup == cfg.backup && plan.indent@ == indent_of(
                cfg.indent,
                cfg.indent_style,
                data@,
            ),
        },
{
    let tree = sort(json, &cfg.order, 0, cfg.depth);
    let plan = if cfg.write {
        Some(WritePlan { indent: get_indent(cfg, data), backup: cfg.backup })
    } else {
        None
    };
    Rewrite { tree, plan }
}

/// How one file came out.
#[derive(Debug, PartialEq, Eq)]
pub struct FileOutcome {
    /// The path of the file.
    pub path: String,
    /// What went wrong; `None` where the file was processed.
    pub failure: Option<String>,
    /// The time that was spent on the file, in microseconds.
    pub elapsed_micros: u64,
}

/// The tally of a run.
#[derive(Clone, Copy, Debug, PartialEq, Eq)]
pub struct RunReport {
    /// The number of files that were processed.
    pub processed: usize,
    /// The number of files that failed.
    pub failed: usize,
}

/// The number of `outcomes` without a failure.
pub open spec fn processed_count(outcomes: Seq<FileOutcome>) -> nat
    decreases outcomes.len(),
{
    if outcomes.len() == 0 {
        0
    } else {
        processed_count(outcomes.drop_last()) + if outcomes.last().failure is None {
            1nat
        } else {
            0nat
        }
    }
}

/// Counts the files that were processed and those that failed. The two
/// counts are exact, in whatever order the outcomes came in.
pub fn summarize(outcomes: &Vec<FileOutcome>) -> (report: RunReport)
    ensures
        report.processed == processed_count(outcomes@),
        report.processed + report.failed == outcomes.len(),
{
    let mut processed: usize = 0;
    let mut i: usize = 0;
    assert(outcomes@.take(0) =~= Seq::empty());
    while i < outcomes.len()
        invariant
            i <= outcomes.len(),
            processed <= i,
            processed == processed_count(outcomes@.take(i as int)),
        decreases outcomes.len() - i,
    {
        assert(outcomes@.take(i + 1).drop_last() =~= outcomes@.take(i as int));
        if outcomes[i].failure.is_none() {
            processed += 1;
        }
        i += 1;
    }
    assert(outcomes@.take(i as int) =~= outcomes@);
    RunReport { processed, failed: outcomes.len() - processed }
}

/// The advice that goes with an error message, where there is any: the
/// message that no file was found comes with the advice to check the
/// patterns.
pub open spec fn hint_of(message: Seq<char>) -> Option<Seq<char>> {
    if message == "No JSON files found matching the provided patterns"@ {
        Some("Make sure the file patterns are correct and the files exist."@)
    } else {
        None
    }
}

/// The advice that goes with the error message `message`, where there is any.
pub fn hint_for(message: &str) -> (hint: Option<&'static str>)
    ensures
        match hint {
            None => hint_of(message@) is None,
            Some(hint) => hint_of(message@) == Some(hint@),
        },
{
    let no_files = String::from_str("No JSON files found matching the provided patterns");
    if message.to_owned() == no_files {
        Some("Make sure the file patterns are correct and the files exist.")
    } else {
        None
    }
}

} // verus!
