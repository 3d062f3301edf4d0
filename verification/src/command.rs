//! What the command line can ask for.

use vstd::prelude::*;

verus! {

/// When the operator is asked before a removal.
#[derive(Clone, Copy, Debug, PartialEq, Eq, Structural)]
pub enum Interactive {
    /// Never: every candidate is removed at once.
    Never,
    /// Once, after all candidates are known.
    Once,
    /// For every candidate.
    Always,
}

impl Interactive {
    /// The word that stands for the mode on the command line.
    pub open spec fn spec_name(&self) -> Seq<char> {
        match self {
            Interactive::Never => "never"@,
            Interactive::Once => "once"@,
            Interactive::Always => "always"@,
        }
    }

    /// The word that stands for the mode on the command line.
    pub fn name(&self) -> (r: &'static str)
        ensures
            r@ == self.spec_name(),
    {
        match self {
            Interactive::Never => "never",
            Interactive::Once => "once",
            Interactive::Always => "always",
        }
    }
}

/// Options of every command.
#[derive(Debug)]
pub struct CommonOptions {
    /// Path of the settings file.
    pub config: Option<String>,
    /// How often the log level was raised.
    pub verbose: u8,
}

/// Options of the command that does the retention.
#[derive(Debug)]
pub struct RunOptions {
    /// When the operator is asked.
    pub interactive: Interactive,
    /// Never ask; `interactive` overrides it.
    pub no_prompt: bool,
    /// Do not tell the figures of the run.
    pub no_statistic: bool,
    /// Where the removed paths are written; `-` is the standard output.
    pub output: Option<String>,
    /// Write without a buffer in between.
    pub output_unbuffered: bool,
    /// What stands between two removed paths.
    pub output_delimiter: String,
    /// Take the character `\0` as the delimiter.
    pub null_output_delimiter: bool,
    /// Remove no file.
    pub dry_run: bool,
}

/// Options of the command that refreshes roots.
#[derive(Debug)]
pub struct TouchOptions {
    /// Path to touch.
    pub path: String,
    /// Do not go into directories.
    pub no_recursive: bool,
    /// Do not tell what is touched.
    pub silent: bool,
    /// Touch no file.
    pub dry_run: bool,
}

/// Options of the command that writes the manual pages.
#[derive(Debug)]
pub struct ManPageOptions {
    /// Directory that takes the pages.
    pub out: String,
}

/// Options of the command that writes the shell completions.
#[derive(Debug)]
pub struct CompletionOptions {
    /// Directory that takes the completions.
    pub out: String,
}

} // verus!
