//! What one run is asked to do.
use crate::SortOrder;
use vstd::prelude::*;

verus! {

/// What an indent that is asked for by width is made of.
#[derive(Clone, Copy, Debug, PartialEq, Eq, Structural)]
pub enum IndentStyle {
    Tabs,
    Spaces,
}

/// The settings of one run.
#[derive(Debug)]
pub struct Configuration {
    /// The patterns of the files to work on.
    pub include_patterns: Vec<String>,
    /// The patterns of the files to leave out.
    pub exclude_patterns: Option<Vec<String>>,
    /// Whether the sorted documents are written back.
    pub write: bool,
    /// Whether a file is copied aside before it is written.
    pub backup: bool,
    /// The order that the keys are put in.
    pub order: SortOrder,
    /// How many levels of objects are reordered; all of them where `None`.
    pub depth: Option<u32>,
    /// The width of the indent to print with; the document's own where `None`.
    pub indent: Option<usize>,
    /// What an indent of that width is made of.
    pub indent_style: Option<IndentStyle>,
    /// Whether the walk leaves out what ignore files name, and what is hidden.
    pub respect_ignore_rules: bool,
}

} // verus!
