//! The options of the command that prints the head of a file.

use vstd::prelude::*;
use std::path::PathBuf;

verus! {

/// `std::path::PathBuf`, carried through as it is: nothing is said of what a
/// path holds.
#[verifier::external_type_specification]
#[verifier::external_body]
pub struct ExPathBuf(PathBuf);

/// How many lines are printed where no count is given.
pub const DEFAULT_COUNT: usize = 5;

/// What to print the head of, and how much of it.
pub struct Head {
    /// The file to load.
    pub file: PathBuf,
    /// How many lines to print.
    pub count: usize,
}

impl Head {
    /// The options for a file where no count is given.
    pub fn of_file(file: PathBuf) -> (r: Head)
        ensures
            r.file == file,
            r.count == DEFAULT_COUNT,
    {
        Head { file, count: DEFAULT_COUNT }
    }
}

} // verus!
