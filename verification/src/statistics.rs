//! Counts of what a run saw and did.

use vstd::prelude::*;

verus! {

/// A count that starts at zero and wraps around at the largest `usize`.
#[derive(Debug)]
pub struct Counter(usize);

/// `count` raised by `n`, wrapping around at the largest `usize`.
pub open spec fn wrapped_sum(count: usize, n: usize) -> usize {
    if count + n <= usize::MAX {
        (count + n) as usize
    } else {
        (count + n - usize::MAX - 1) as usize
    }
}

impl Default for Counter {
    fn default() -> (counter: Counter)
        ensures
            counter.spec_get() == 0,
    {
        Counter(0)
    }
}

impl Counter {
    /// The count.
    pub closed spec fn spec_get(&self) -> usize {
        self.0
    }

    /// Raises the count by one.
    pub fn increase(&mut self)
        ensures
            final(self).spec_get() == wrapped_sum(old(self).spec_get(), 1),
    {
        self.add(1);
    }

    /// Raises the count by `n`.
    pub fn add(&mut self, n: usize)
        ensures
            final(self).spec_get() == wrapped_sum(old(self).spec_get(), n),
    {
        if n <= usize::MAX - self.0 {
            self.0 = self.0 + n;
        } else {
            self.0 = n - (usize::MAX - self.0) - 1;
        }
    }

    /// The count.
    #[verifier::when_used_as_spec(spec_get)]
    pub fn get(&self) -> (count: usize)
        ensures
            count == self.spec_get(),
    {
        self.0
    }

    /// Ends the counting and gives the count.
    pub fn done(self) -> (count: usize)
        ensures
            count == self.spec_get(),
    {
        self.0
    }
}

/// The counts of one run.
#[derive(Debug)]
pub struct Statistics {
    /// Links looked at in the directories of roots.
    pub traversed: Counter,
    /// Roots that a policy monitors.
    pub monitored: Counter,
    /// Monitored roots that were due for removal.
    pub expired: Counter,
    /// Roots that failed a validation.
    pub invalid: Counter,
    /// Roots removed.
    pub removed: Counter,
}

/// The figures that close a run.
#[derive(Clone, Copy, Debug, PartialEq, Eq, Structural)]
pub struct Summary {
    /// Links looked at in the directories of roots.
    pub traversed: usize,
    /// Roots that a policy monitors.
    pub monitored: usize,
    /// Monitored roots that were due for removal.
    pub expired: usize,
    /// Roots removed.
    pub removed: usize,
    /// Whether the removals were only rehearsed, and there was at least one.
    pub removed_in_dry_run: bool,
    /// Roots that failed a validation.
    pub invalid: usize,
    /// Links traversed and not removed.
    pub kept: usize,
}

/// One line of the figures that close a run.
#[derive(Clone, Copy, Debug, PartialEq, Eq)]
pub struct Row {
    /// What is counted, with the colon and the blanks that line the figures
    /// up.
    pub label: &'static str,
    /// The figure.
    pub value: usize,
    /// Whether the figure counts rehearsed removals.
    pub in_dry_run: bool,
}

impl Summary {
    /// The lines that tell the figures, in the order in which they are told.
    pub fn rows(&self) -> (rows: Vec<Row>)
        ensures
            rows@.len() == 6,
            rows@[0].label@ == "traversed: "@ && rows@[0].value == self.traversed,
            rows@[1].label@ == "monitored: "@ && rows@[1].value == self.monitored,
            rows@[2].label@ == "expired:   "@ && rows@[2].value == self.expired,
            rows@[3].label@ == "removed:   "@ && rows@[3].value == self.removed,
            rows@[4].label@ == "invalid:   "@ && rows@[4].value == self.invalid,
            rows@[5].label@ == "kept:      "@ && rows@[5].value == self.kept,
            forall|i: int|
                0 <= i < 6 ==> (#[trigger] rows@[i]).in_dry_run == (i == 3
                    && self.removed_in_dry_run),
    {
        let mut rows: Vec<Row> = Vec::new();
        rows.push(Row { label: "traversed: ", value: self.traversed, in_dry_run: false });
        rows.push(Row { label: "monitored: ", value: self.monitored, in_dry_run: false });
        rows.push(Row { label: "expired:   ", value: self.expired, in_dry_run: false });
        rows.push(
            Row { label: "removed:   ", value: self.removed, in_dry_run: self.removed_in_dry_run },
        );
        rows.push(Row { label: "invalid:   ", value: self.invalid, in_dry_run: false });
        rows.push(Row { label: "kept:      ", value: self.kept, in_dry_run: false });
        rows
    }
}

impl Default for Statistics {
    fn default() -> (statistics: Statistics)
        ensures
            statistics.traversed.spec_get() == 0,
            statistics.monitored.spec_get() == 0,
            statistics.expired.spec_get() == 0,
            statistics.invalid.spec_get() == 0,
            statistics.removed.spec_get() == 0,
    {
        Statistics {
            traversed: Counter::default(),
            monitored: Counter::default(),
            expired: Counter::default(),
            invalid: Counter::default(),
            removed: Counter::default(),
        }
    }
}

impl Statistics {
    /// The figures of the run: what was kept is what was traversed less what
    /// was removed.
    pub open spec fn spec_summary(&self, dry_run: bool) -> Summary {
        Summary {
            traversed: self.traversed.spec_get(),
            monitored: self.monitored.spec_get(),
            expired: self.expired.spec_get(),
            removed: self.removed.spec_get(),
            removed_in_dry_run: self.removed.spec_get() != 0 && dry_run,
            invalid: self.invalid.spec_get(),
            kept: (self.traversed.spec_get() - self.removed.spec_get()) as usize,
        }
    }

    /// Ends the counting and gives the figures of the run. No more may have
    /// been removed than was traversed.
    pub fn summary(self, dry_run: bool) -> (summary: Summary)
        requires
            self.removed.spec_get() <= self.traversed.spec_get(),
        ensures
            summary == self.spec_summary(dry_run),
    {
        let traversed = self.traversed.done();
        let monitored = self.monitored.done();
        let expired = self.expired.done();
        let removed = self.removed.done();
        let invalid = self.invalid.done();
        let kept: usize = traversed - removed;
        Summary {
            traversed,
            monitored,
            expired,
            removed,
            removed_in_dry_run: removed != 0 && dry_run,
            invalid,
            kept,
        }
    }
}

} // verus!
