//! Which roots a temporary-root policy monitors, and when they expire.

use crate::config::TemporaryRootConfig;
use crate::error::FilterError;
use crate::filter::{spec_verdict, FilterOutcome};
use crate::gc_root::GcRoot;
use crate::paths::{join, path_join, path_starts_with, starts_with};
use crate::pattern::{is_match, regex_matches};
use vstd::prelude::*;

verus! {

/// A named rule over roots that belong to no profile.
#[derive(Debug)]
pub struct TemporaryRootPolicy {
    /// Name of the policy.
    pub name: String,
    /// How the policy chooses and judges.
    pub config: TemporaryRootConfig,
}

/// What a policy makes of a root before any filter is asked.
#[derive(Clone, Copy, Debug, PartialEq, Eq, Structural)]
pub enum Screening {
    /// The policy does not monitor the root.
    Ignored,
    /// The policy monitors the root.
    Monitored,
    /// The policy monitors the root if its filter agrees.
    Filter,
}

/// Whether `target` lies below one of the prefixes.
pub open spec fn below_prefix(prefixes: Seq<String>, target: Seq<char>) -> bool {
    exists|i: int| 0 <= i < prefixes.len() && path_starts_with(target, #[trigger] prefixes[i]@)
}

/// Whether `target` lies below one of the prefixes, each taken from `home`.
pub open spec fn below_prefix_in_home(
    prefixes: Seq<String>,
    home: Seq<char>,
    target: Seq<char>,
) -> bool {
    exists|i: int|
        0 <= i < prefixes.len() && path_starts_with(
            target,
            path_join(home, #[trigger] prefixes[i]@),
        )
}

impl TemporaryRootPolicy {
    /// Whether the target of `root` lies below an ignored prefix. Where the
    /// home directory of the owner is not known, the prefixes in the home
    /// directory ignore nothing.
    pub open spec fn ignores(&self, root: GcRoot) -> bool {
        ||| below_prefix(self.config.ignore_prefixes@, root.path@)
        ||| root.owner_home is Some && below_prefix_in_home(
            self.config.ignore_prefixes_in_home@,
            root.owner_home->0@,
            root.path@,
        )
    }

    /// Whether the policy picks `root` by its path: no prefix ignores it, and
    /// the expression matches the target.
    pub open spec fn selects(&self, root: GcRoot) -> bool {
        !self.ignores(root) && regex_matches(self.config.path_regex, root.path@)
    }

    /// What the policy makes of `root` before any filter is asked.
    pub open spec fn spec_screen(&self, root: GcRoot) -> Screening {
        if !self.selects(root) {
            Screening::Ignored
        } else if self.config.filter is Some {
            Screening::Filter
        } else {
            Screening::Monitored
        }
    }

    /// Whether the policy monitors `root`, where `outcome` is how the run of
    /// its filter ended.
    pub open spec fn spec_monitored(&self, root: GcRoot, outcome: FilterOutcome) -> Result<
        bool,
        FilterError,
    > {
        match self.spec_screen(root) {
            Screening::Ignored => Ok(false),
            Screening::Monitored => Ok(true),
            Screening::Filter => spec_verdict(outcome),
        }
    }

    /// Whether `root` is older than the policy allows. A policy without a
    /// period lets nothing expire.
    pub open spec fn spec_expired(&self, root: GcRoot) -> bool {
        self.config.period is Some && root.age.nanos > self.config.period->0.nanos
    }

    /// The policy named `name` that chooses and judges as `config` says.
    pub fn new(name: String, config: TemporaryRootConfig) -> (policy: TemporaryRootPolicy)
        ensures
            policy.name == name,
            policy.config == config,
    {
        TemporaryRootPolicy { name, config }
    }

    fn ignored_by_prefix(&self, target: &str) -> (r: bool)
        ensures
            r == below_prefix(self.config.ignore_prefixes@, target@),
    {
        let mut i: usize = 0;
        while i < self.config.ignore_prefixes.len()
            invariant
                i <= self.config.ignore_prefixes.len(),
                forall|j: int|
                    0 <= j < i ==> !path_starts_with(
                        target@,
                        #[trigger] self.config.ignore_prefixes@[j]@,
                    ),
            decreases self.config.ignore_prefixes.len() - i,
        {
            if starts_with(target, self.config.ignore_prefixes[i].as_str()) {
                return true;
            }
            i += 1;
        }
        false
    }

    fn ignored_by_prefix_in_home(&self, target: &str, owner_home: &Option<String>) -> (r: bool)
        ensures
            r == (*owner_home is Some && below_prefix_in_home(
                self.config.ignore_prefixes_in_home@,
                owner_home->0@,
                target@,
            )),
    {
        let home = match owner_home {
            Some(home) => home,
            None => {
                return false;
            },
        };
        let mut i: usize = 0;
        while i < self.config.ignore_prefixes_in_home.len()
            invariant
                i <= self.config.ignore_prefixes_in_home.len(),
                *owner_home == Some(*home),
                forall|j: int|
                    0 <= j < i ==> !path_starts_with(
                        target@,
                        path_join(home@, #[trigger] self.config.ignore_prefixes_in_home@[j]@),
                    ),
            decreases self.config.ignore_prefixes_in_home.len() - i,
        {
            let full_prefix = join(home.as_str(), self.config.ignore_prefixes_in_home[i].as_str());
            if starts_with(target, full_prefix.as_str()) {
                return true;
            }
            i += 1;
        }
        false
    }

    /// Judges `root` by its path alone, and tells whether a filter has the
    /// last word.
    pub fn screen(&self, root: &GcRoot) -> (r: Screening)
        ensures
            r == self.spec_screen(*root),
    {
        if self.ignored_by_prefix(root.path.as_str()) || self.ignored_by_prefix_in_home(
            root.path.as_str(),
            &root.owner_home,
        ) {
            return Screening::Ignored;
        }
        if !is_match(&self.config.path_regex, root.path.as_str()) {
            return Screening::Ignored;
        }
        if self.config.filter.is_some() {
            Screening::Filter
        } else {
            Screening::Monitored
        }
    }

    /// Decides whether the policy monitors `root`. `outcome` is how the run
    /// of the filter ended; it is read only where the policy picks the root
    /// and has a filter.
    pub fn monitored(&self, root: &GcRoot, outcome: FilterOutcome) -> (r: Result<bool, FilterError>)
        ensures
            r == self.spec_monitored(*root, outcome),
    {
        match self.screen(root) {
            Screening::Ignored => Ok(false),
            Screening::Monitored => Ok(true),
            Screening::Filter => match &self.config.filter {
                Some(filter) => filter.run(outcome),
                None => Ok(true),
            },
        }
    }

    /// Whether `root` is older than the policy allows.
    pub fn expired(&self, root: &GcRoot) -> (r: bool)
        ensures
            r == self.spec_expired(*root),
    {
        match self.config.period {
            Some(period) => root.age.nanos > period.nanos,
            None => false,
        }
    }
}

/// A root that is not older than the period of the policy has not expired.
pub proof fn lemma_young_root_not_expired(policy: TemporaryRootPolicy, root: GcRoot)
    requires
        policy.config.period matches Some(period) && root.age.nanos <= period.nanos,
    ensures
        !policy.spec_expired(root),
{
}

/// A filter that ends with a status other than zero leaves no root
/// monitored by its policy.
pub proof fn lemma_refusing_filter_monitors_nothing(policy: TemporaryRootPolicy, root: GcRoot)
    requires
        policy.config.filter is Some,
    ensures
        policy.spec_monitored(root, FilterOutcome::Exited { success: false }) == Ok::<
            bool,
            FilterError,
        >(false),
{
}

} // verus!
