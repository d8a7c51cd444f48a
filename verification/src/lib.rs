//! A directory-scanning analysis library: a recursive walker over a file
//! tree that selects files by extension and ignore rules, abandons noisy
//! directories after too many consecutive misses, and feeds each selected
//! file to a pluggable journal that accumulates a report (line counts or
//! TODO-comment extraction).

pub mod chars;
pub mod config;
pub mod fstree;
pub mod journal;
pub mod lines;
pub mod todo;
pub mod walker;
