//! The command line's options.
use vstd::prelude::*;

verus! {

/// The options of a search: the pattern, the paths to search, and how.
#[derive(Debug, Clone, PartialEq, Eq)]
pub struct Arguments {
    pub pattern: String,
    pub paths: Vec<String>,
    pub ignore_case: bool,
    pub recursive: bool,
    pub count: bool,
    pub line_number: bool,
    pub invert_match: bool,
}

} // verus!
