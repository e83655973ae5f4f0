//! Key-order normalisation for JSON documents, with the selection of the
//! files it is applied to.
//!
//! The tree engine ([`sort`]) rewrites a [`json::Json`] tree so that the keys
//! of every object within a depth bound follow a [`SortOrder`]; the selection
//! engine ([`files`]) decides which of the files that a directory walk meets
//! a set of include and exclude glob patterns picks. [`pipeline`] holds what
//! one run computes around the two, and [`theorems`] what is proved of them
//! in general.
use vstd::prelude::*;

pub mod config;
pub mod files;
pub mod indent;
pub mod json;
pub mod key_order;
pub mod paths;
pub mod pattern;
pub mod pipeline;
pub mod random;
pub mod sort;
pub mod text;
pub mod theorems;

verus! {

/// The policy by which the keys of one object are put in sequence.
#[derive(Clone, Copy, Debug, PartialEq, Eq, Structural)]
pub enum SortOrder {
    /// Keys ascending by code point, compared position by position.
    AlphabeticalAsc,
    /// Keys descending by code point.
    AlphabeticalDesc,
    /// A shuffle, drawn anew for every object visited.
    Random,
    /// Shorter keys first, the length of a key being the number of its
    /// characters; keys of one length ascending by code point.
    KeyLengthAsc,
    /// Longer keys first; keys of one length ascending by code point.
    KeyLengthDesc,
}

} // verus!
