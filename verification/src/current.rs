//! The state of the system at the start of a run.

use crate::time::Timestamp;
use vstd::prelude::*;

verus! {

/// What a run knows of the system it runs on. It is looked up once, before the
/// first decision, and does not change during the run.
#[derive(Debug)]
pub struct Current {
    /// The time of the run.
    pub now: Timestamp,
    /// Target of the link of the booted system; `None` when the link could
    /// not be read.
    pub booted_system: Option<String>,
    /// Target of the link of the current system; `None` when the link could
    /// not be read.
    pub current_system: Option<String>,
}

impl Current {
    /// The state of a system observed at `now`.
    pub fn new(
        now: Timestamp,
        booted_system: Option<String>,
        current_system: Option<String>,
    ) -> (current: Current)
        ensures
            current.now == now,
            current.booted_system == booted_system,
            current.current_system == current_system,
    {
        Current { now, booted_system, current_system }
    }
}

} // verus!
