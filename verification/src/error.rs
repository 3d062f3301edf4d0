//! Why a run stops.

use vstd::prelude::*;

verus! {

/// Why the external filter could not give a verdict.
#[derive(Clone, Copy, Debug, PartialEq, Eq, Structural)]
pub enum FilterError {
    /// The input of the filter could not be written as JSON.
    Serialize,
    /// The program could not be started.
    Spawn,
    /// The standard input of the program was not available.
    Stdin,
    /// The input could not be written to the program.
    Write,
    /// Waiting for the program failed.
    Wait,
}

/// A condition that ends the run.
#[derive(Clone, Copy, Debug, PartialEq, Eq, Structural)]
pub enum RunError {
    /// The link at this position among the links of the run could not be
    /// read.
    ReadLink { index: usize },
    /// The platform does not tell when the target of the link at this
    /// position was last modified.
    ModifiedTime { index: usize },
    /// The path of a profile has no final component.
    ProfileFileName,
    /// The link of a profile could not be read.
    ProfileLink,
    /// The path of a profile has no parent directory.
    ProfileParent,
    /// The directory of a profile could not be opened.
    ProfileDirectory,
    /// The entry at this position of the directory of a profile could not be
    /// read.
    ProfileEntry { index: usize },
    /// The generation number of the entry at this position does not fit.
    GenerationNumber { index: usize },
    /// The link of the booted system could not be read.
    BootedSystem,
    /// The link of the current system could not be read.
    CurrentSystem,
    /// The external filter gave no verdict.
    Filter(FilterError),
    /// The operator could not be asked.
    Prompt,
    /// The file of the root at this position among the roots of the run
    /// could not be deleted.
    Remove { root: usize },
    /// The event does not answer what the run was waiting for.
    UnexpectedEvent,
}

} // verus!
