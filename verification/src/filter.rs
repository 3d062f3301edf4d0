//! The external program that may veto the monitoring of a root.
//!
//! The program reads one JSON object on its standard input and answers with
//! its exit status alone. Starting the program and waiting for it is the
//! caller's part; what is written to it and what its end means is decided
//! here.

use crate::error::FilterError;
use vstd::prelude::*;
use vstd::string::StringExecFns;

verus! {

/// An external filter: a program and its arguments.
#[derive(Debug)]
pub struct Filter {
    /// Path of the program.
    pub program: String,
    /// Arguments handed to the program.
    pub arguments: Vec<String>,
}

/// Copies a list of texts.
pub fn clone_strings(texts: &Vec<String>) -> (r: Vec<String>)
    ensures
        r@ == texts@,
{
    let mut copy: Vec<String> = Vec::new();
    let mut i: usize = 0;
    while i < texts.len()
        invariant
            i <= texts.len(),
            copy@ == texts@.subrange(0, i as int),
        decreases texts.len() - i,
    {
        copy.push(texts[i].clone());
        assert(texts@.subrange(0, i + 1) =~= texts@.subrange(0, i as int).push(texts@[i as int]));
        i += 1;
    }
    assert(texts@.subrange(0, texts.len() as int) == texts@);
    copy
}

impl Filter {
    /// Whether the two filters run the same program with the same arguments.
    pub open spec fn same(&self, other: Filter) -> bool {
        self.program == other.program && self.arguments@ == other.arguments@
    }
}

impl Clone for Filter {
    fn clone(&self) -> (r: Self)
        ensures
            r.same(*self),
    {
        Filter { program: self.program.clone(), arguments: clone_strings(&self.arguments) }
    }
}

/// What the filter is asked about.
#[derive(Debug)]
pub struct Input {
    /// Target of the root.
    pub path: String,
    /// The link of the root.
    pub gc_root: String,
}

/// How an attempt to run the filter ended.
#[derive(Clone, Copy, Debug, PartialEq, Eq, Structural)]
pub enum FilterOutcome {
    /// The program could not be started.
    SpawnFailed,
    /// The program started without a standard input to write to.
    StdinMissing,
    /// Writing the input failed.
    WriteFailed,
    /// Waiting for the program failed.
    WaitFailed,
    /// The program ended; `success` tells whether its exit status was zero.
    Exited { success: bool },
}

/// The JSON string literal that `serde_json::to_string` writes for `text`.
pub uninterp spec fn json_string(text: Seq<char>) -> Seq<char>;

/// Calls `serde_json::to_string` on a string. Trusted: the call succeeds, and
/// what comes back is the literal that `json_string` names. The call writes
/// the literal into a buffer in memory and fails only where the writing
/// fails, which it does not there.
#[verifier::external_body]
fn to_json_string(text: &str) -> (r: Option<String>)
    ensures
        r is Some,
        r matches Some(literal) ==> literal@ == json_string(text@),
{
    match serde_json::to_string(text) {
        Ok(literal) => Some(literal),
        Err(_) => None,
    }
}

/// The JSON object with the member `path`, then the member `gc_root`, given
/// the literals of the two values.
pub open spec fn input_object(path: Seq<char>, gc_root: Seq<char>) -> Seq<char> {
    "{\"path\":"@ + path + ",\"gc_root\":"@ + gc_root + "}"@
}

/// Whether running the filter left the root monitored: the program must have
/// ended, and with exit status zero.
pub open spec fn spec_verdict(outcome: FilterOutcome) -> Result<bool, FilterError> {
    match outcome {
        FilterOutcome::SpawnFailed => Err(FilterError::Spawn),
        FilterOutcome::StdinMissing => Err(FilterError::Stdin),
        FilterOutcome::WriteFailed => Err(FilterError::Write),
        FilterOutcome::WaitFailed => Err(FilterError::Wait),
        FilterOutcome::Exited { success } => Ok(success),
    }
}

impl Input {
    /// Puts the object together from the literals of its two values. Where a
    /// literal is missing, the input cannot be written.
    pub fn frame(path: Option<String>, gc_root: Option<String>) -> (r: Result<
        String,
        FilterError,
    >)
        ensures
            path is None || gc_root is None ==> r == Err::<String, FilterError>(
                FilterError::Serialize,
            ),
            path is Some && gc_root is Some ==> (r matches Ok(object) && object@ == input_object(
                path->0@,
                gc_root->0@,
            )),
    {
        match (path, gc_root) {
            (Some(path), Some(gc_root)) => {
                let mut object = "{\"path\":".to_owned();
                object.append(path.as_str());
                object.append(",\"gc_root\":");
                object.append(gc_root.as_str());
                object.append("}");
                Ok(object)
            },
            _ => Err(FilterError::Serialize),
        }
    }

    /// The input as the JSON object that the filter reads.
    pub fn to_json(&self) -> (r: Result<String, FilterError>)
        ensures
            r matches Ok(object) && object@ == input_object(
                json_string(self.path@),
                json_string(self.gc_root@),
            ),
    {
        let path = to_json_string(self.path.as_str());
        let gc_root = to_json_string(self.gc_root.as_str());
        Input::frame(path, gc_root)
    }
}

impl Filter {
    /// Reads the verdict off the way the program ended: the root stays
    /// monitored when the program exited with status zero and is ignored
    /// when it exited with another status; every other ending is an error.
    pub fn run(&self, outcome: FilterOutcome) -> (r: Result<bool, FilterError>)
        ensures
            r == spec_verdict(outcome),
    {
        match outcome {
            FilterOutcome::SpawnFailed => Err(FilterError::Spawn),
            FilterOutcome::StdinMissing => Err(FilterError::Stdin),
            FilterOutcome::WriteFailed => Err(FilterError::Write),
            FilterOutcome::WaitFailed => Err(FilterError::Wait),
            FilterOutcome::Exited { success } => Ok(success),
        }
    }
}

} // verus!
