//! The commands of the tool, as plain values.
use vstd::prelude::*;

verus! {

/// No diagnostics.
pub const VERBOSITY_NONE: u8 = 0;
/// Progress of each command.
pub const VERBOSITY_LOG: u8 = 1;
/// Entry and exit of each operation.
pub const VERBOSITY_TRACE: u8 = 2;
/// Every step.
pub const VERBOSITY_ALL: u8 = 3;

/// A parsed command line: how verbose to be, and what to do.
#[derive(Debug)]
pub struct Cli {
    pub verbose: u8,
    pub command: Commands,
}

/// The commands; paths are given as the bytes of the operating system's
/// path strings.
#[derive(Debug)]
pub enum Commands {
    /// Creates a repository in the given directory, or the current one.
    Init { path: Option<Vec<u8>> },
    /// Checks the store for validity and completeness.
    Check,
    /// Prints an object, as text or as its canonical encoding.
    Cat { raw: bool, reference: String },
    /// Stages paths.
    Add { paths: Vec<Vec<u8>> },
    /// Unstages paths.
    Sub { paths: Vec<Vec<u8>> },
    /// Records the stage as a commit.
    Commit { message: String, name: String, email: String },
    /// Lists commits back from a reference.
    Log { limit: usize, reference: String },
    /// Removes unreferenced objects.
    Gc,
}

} // verus!
