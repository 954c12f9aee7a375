//! Path addressing for a dynamically shaped configuration tree: read a value
//! at `host/port` with a default, or write through the same kind of path.
//!
//! `tree` holds the tree and its model, `segment` splits paths, `read` and
//! `write` navigate and hold the two kinds of handle, `operator` gives the
//! handles on a tree, and `laws` states what holds of all of them. `text`,
//! `grep` and `cli` serve the small command-line tools that come with it.

pub mod cli;
pub mod grep;
pub mod laws;
pub mod operator;
pub mod read;
pub mod segment;
pub mod text;
pub mod tree;
pub mod write;
