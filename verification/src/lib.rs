//! A small grep-like search library: splits text into lines, selects the
//! lines that a regular expression matches (or does not match), and widens
//! the selection by a number of context lines before and after each one.

pub mod cli;
pub mod formatter;
pub mod search;
