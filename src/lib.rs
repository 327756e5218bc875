//! Finding files by regular expressions on their base names, over a
//! snapshot of directory trees, with an optional sorted, duplicate-free pass
//! over the matches.
pub mod order;
pub mod dedup;
pub mod pattern;
pub mod tree;
pub mod search;
