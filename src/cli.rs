//! The command-line surface as plain data: which command was asked for, and
//! on which path.

use vstd::prelude::*;

verus! {

/// A parsed command line.
pub struct Cli {
    pub command: Commands,
}

/// The commands of the tool.
pub enum Commands {
    /// Hash a single file and print its digest.
    Hash { path: String },
    /// Add a file, or a directory recursively, to the registry.
    Add { path: String },
    /// Verify the files in the registry.
    Verify,
}

} // verus!
