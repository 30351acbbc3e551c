//! Directory trees in memory.
//!
//! A traversal (`walk`) builds a tree of entries (`tree`) from the answers
//! of the file system, keeping the names that a `filter` lets in and putting
//! siblings in the order of a sorter (`sort`). The finished tree is rendered
//! (`printer`) as an indented text tree, as a compact notation with one line
//! for each entry, or as nodes for a structured document; sizes and times
//! are written by `format`.
//!
//! The library reads no file system and writes no stream: a traversal says
//! what it needs and is resumed with the answer, and rendering gives text.

pub mod filter;
pub mod format;
pub mod printer;
pub mod sort;
pub mod text;
pub mod tree;
pub mod walk;
