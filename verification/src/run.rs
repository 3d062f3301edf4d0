//! The run: which roots there are, what becomes of each candidate, and in
//! which order.
//!
//! A run looks at nothing and changes nothing itself. It is driven in steps:
//! each step takes the answer to what the step before asked for, and says
//! what is to be done now and what it needs to know next. A file is deleted
//! by the caller, on the run's asking, and the removal is counted and
//! written to the output only when the caller has told that the file is
//! gone. The run keeps account of the roots it has offered as candidates, so
//! that one policy at most takes a root.

use crate::command::{Interactive, RunOptions};
use crate::config::{
    distinct_names, enabled_order, enabled_profiles, in_order, mirrors, mirrors_profile, RunConfig,
};
use crate::current::Current;
use crate::error::RunError;
use crate::filter::{spec_verdict, FilterOutcome, Input};
use crate::gc_root::{GcRoot, StatOutcome};
use crate::paths::{path_eq, same_path};
use crate::policy::profile::{
    judging_failure, lemma_unmarked_are_unkept, unkept, unkept_roots, ProfilePolicy,
};
use crate::policy::temporary::{Screening, TemporaryRootPolicy};
use crate::profile::{
    profile_failure, profile_generations, profile_skipped, read_profile, ProfileProbe,
};
use crate::statistics::{wrapped_sum, Statistics, Summary};
use crate::text::lex_le;
use crate::time::{Duration, Timestamp};
use crate::utils::{home_dir_of, in_store, validate_store_path};
use vstd::prelude::*;
use vstd::string::StringExecFns;
use vstd::utf8::encode_utf8;

verus! {

/// What is done with a candidate.
#[derive(Clone, Copy, Debug, PartialEq, Eq, Structural)]
pub enum Action {
    /// It is removed.
    Remove,
    /// It will be removed if the operator agrees.
    AboutToRemove,
    /// The operator spared it.
    Ignored,
}

/// The colour in which an action is told.
#[derive(Clone, Copy, Debug, PartialEq, Eq, Structural)]
pub enum Colour {
    /// For what is done.
    Green,
    /// For what is about to be done.
    Blue,
    /// For what is left undone.
    Cyan,
}

impl Action {
    /// The colour in which the action is told: green for a removal, blue
    /// for one that is about to happen, cyan for one that was spared.
    pub fn colour(&self) -> (r: Colour)
        ensures
            r == match self {
                Action::Remove => Colour::Green,
                Action::AboutToRemove => Colour::Blue,
                Action::Ignored => Colour::Cyan,
            },
    {
        match self {
            Action::Remove => Colour::Green,
            Action::AboutToRemove => Colour::Blue,
            Action::Ignored => Colour::Cyan,
        }
    }

    /// The words that tell the operator of the action.
    pub open spec fn spec_label(&self) -> Seq<char> {
        match self {
            Action::Remove => "Remove"@,
            Action::AboutToRemove => "About to remove"@,
            Action::Ignored => "Ignore"@,
        }
    }

    /// The words that tell the operator of the action.
    pub fn label(&self) -> (r: &'static str)
        ensures
            r@ == self.spec_label(),
    {
        match self {
            Action::Remove => "Remove",
            Action::AboutToRemove => "About to remove",
            Action::Ignored => "Ignore",
        }
    }
}

/// What the operator is told about a candidate.
#[derive(Debug)]
pub struct Notice {
    /// Name of the policy that made the root a candidate.
    pub policy_name: String,
    /// What is done with the candidate.
    pub action: Action,
    /// Whether the removal is only rehearsed.
    pub dry_run: bool,
    /// The path that the removal is about.
    pub path: String,
    /// Age of the root.
    pub age: Duration,
}

/// Something for the caller to do before it sees to the query of the step.
/// Each must succeed before the next is begun; a failure ends the run.
#[derive(Debug)]
pub enum Effect {
    /// Tell the operator.
    Notify(Notice),
    /// Write `path` to the output, behind a delimiter where `after_delimiter`
    /// holds.
    Emit { after_delimiter: bool, path: String },
}

/// What the run needs to know before it can go on.
#[derive(Debug)]
pub enum Query {
    /// Nothing.
    Continue,
    /// How the filter of the temporary-root policy at position `policy` ends
    /// when it is given `input`.
    Filter { policy: usize, input: Input },
    /// Whether the operator wants to continue.
    Confirm,
    /// What is on disk of the profile at `path`.
    Profile { path: String },
    /// Whether the file at `path` could be deleted: the caller deletes it
    /// and tells how that went.
    Delete { path: String },
    /// Nothing more: the run is over.
    Done,
}

/// One step of a run: what to do, then what to find out.
#[derive(Debug)]
pub struct Step {
    /// What to do, in this order.
    pub effects: Vec<Effect>,
    /// What to hand to the next step.
    pub query: Query,
}

/// The answer to a query.
#[derive(Debug)]
pub enum Event {
    /// Nothing was asked.
    Continue,
    /// How the filter ended.
    Filter(FilterOutcome),
    /// What the operator said; `None` where the operator could not be asked.
    Answer(Option<bool>),
    /// What is on disk of the profile.
    Profile(ProfileProbe),
    /// Whether the file was deleted.
    Deleted(bool),
}

/// Where a run stands. Positions count into the roots of the run, into its
/// policies in the order in which they are asked, into the profile paths of
/// a profile policy, into the candidates of the profile at hand and into the
/// candidates that wait for the one confirmation.
#[derive(Clone, Copy, Debug, PartialEq, Eq, Structural)]
pub enum Stage {
    /// The temporary-root policies from `policy` on are still to be asked
    /// about the root at `root`.
    Matching { root: usize, policy: usize },
    /// The filter of a policy was asked about a root.
    Filtering { root: usize, policy: usize },
    /// The operator was asked about an expired root.
    ConfirmingRoot { root: usize, policy: usize },
    /// The removal of an expired root was announced, and its deletion is
    /// under way.
    DeletingRoot { root: usize },
    /// The profile at `path` of the profile policy at `policy` is next.
    Profiles { policy: usize, path: usize },
    /// The profile was asked for.
    ReadingProfile { policy: usize, path: usize },
    /// The candidates of the profile from `next` on are still to be dealt
    /// with.
    Judging { policy: usize, path: usize, next: usize },
    /// The operator was asked about a generation.
    ConfirmingGeneration { policy: usize, path: usize, next: usize },
    /// The removal of a generation was announced, and its deletion is under
    /// way.
    DeletingGeneration { policy: usize, path: usize, next: usize },
    /// The operator was asked the one question of a run that asks once.
    ConfirmingAll,
    /// The waiting candidates from `next` on are still to be removed.
    Removing { next: usize },
    /// The removal of the waiting candidate at `next` was announced, and its
    /// deletion is under way.
    DeletingWaiting { next: usize },
    /// The run is over.
    Finished,
}

/// The sink of the removed paths, as far as the order of writing goes.
#[derive(Debug)]
pub struct Output {
    /// Whether nothing was written yet.
    pub first_output: bool,
}

/// Where the removed paths go.
#[derive(Debug)]
pub enum OutputTarget {
    /// Nowhere.
    Discard,
    /// To the standard output.
    Stdout { buffered: bool },
    /// To the file at `path`.
    File { path: String, buffered: bool },
}

impl Output {
    /// What is written for `path`: the path, behind the delimiter unless it
    /// is the first.
    pub open spec fn spec_render(
        after_delimiter: bool,
        path: Seq<char>,
        delimiter: Seq<char>,
    ) -> Seq<char> {
        if after_delimiter {
            delimiter + path
        } else {
            path
        }
    }

    /// A sink to which nothing was written.
    pub fn new() -> (output: Output)
        ensures
            output.first_output,
    {
        Output { first_output: true }
    }

    /// Notes that `path` is written and says how: behind a delimiter, unless
    /// it is the first path.
    pub fn output(&mut self, path: String) -> (effect: Effect)
        ensures
            effect == (Effect::Emit { after_delimiter: !old(self).first_output, path }),
            !final(self).first_output,
    {
        let after_delimiter = !self.first_output;
        self.first_output = false;
        Effect::Emit { after_delimiter, path }
    }

    /// The text to write for `path`.
    pub fn render(after_delimiter: bool, path: &str, delimiter: &str) -> (text: String)
        ensures
            text@ == Output::spec_render(after_delimiter, path@, delimiter@),
    {
        if after_delimiter {
            let mut text = delimiter.to_owned();
            text.append(path);
            text
        } else {
            path.to_owned()
        }
    }
}

/// What was observed of one link in a directory of roots.
#[derive(Debug)]
pub struct LinkProbe {
    /// Path of the link.
    pub link_path: String,
    /// Target of the link; `None` where the link could not be read.
    pub target: Option<String>,
    /// Metadata of the target itself.
    pub metadata: StatOutcome,
    /// Canonical form of the target; `None` where it has none.
    pub canonical: Option<String>,
    /// Home directory of the user that owns the target; `None` where the
    /// user database does not know that user, or where the target was not
    /// found.
    pub owner_home: Option<String>,
}

/// Whether a link is passed over: its target is not there or not to be
/// looked at, is not the user's where only the user's count, or does not lie
/// in the store.
pub open spec fn link_skipped(
    probe: LinkProbe,
    store: Seq<char>,
    owned_only: bool,
    uid: u32,
) -> bool {
    match probe.metadata {
        StatOutcome::Found(found) => (owned_only && found.uid != uid) || !in_store(
            store,
            probe.canonical,
        ),
        _ => true,
    }
}

/// Why the link at position `index` ends the run, if it does: it cannot be
/// read, or it is not passed over and nothing tells when its target was
/// modified.
pub open spec fn link_fault(
    probe: LinkProbe,
    store: Seq<char>,
    owned_only: bool,
    uid: u32,
    index: usize,
) -> Option<RunError> {
    if probe.target is None {
        Some(RunError::ReadLink { index })
    } else if !link_skipped(probe, store, owned_only, uid)
        && probe.metadata->Found_0.modified is None {
        Some(RunError::ModifiedTime { index })
    } else {
        None
    }
}

/// Whether `root` is the record of the link that `probe` saw at the time
/// `now`.
pub open spec fn is_root_of(root: GcRoot, probe: LinkProbe, now: Timestamp) -> bool {
    &&& probe.target == Some(root.path)
    &&& root.link_path == probe.link_path
    &&& root.owner_home == probe.owner_home
    &&& probe.canonical == Some(root.store_path)
    &&& probe.metadata == StatOutcome::Found(root.path_metadata)
    &&& root.path_metadata.modified is Some
    &&& root.age.nanos == now.spec_elapsed_since(root.path_metadata.modified->0)
}

/// The positions of the links among the first `n` that are not passed over.
pub open spec fn rooted(
    probes: Seq<LinkProbe>,
    store: Seq<char>,
    owned_only: bool,
    uid: u32,
    n: nat,
) -> Seq<int>
    decreases n,
{
    if n == 0 {
        Seq::empty()
    } else if link_skipped(probes[n - 1], store, owned_only, uid) {
        rooted(probes, store, owned_only, uid, (n - 1) as nat)
    } else {
        rooted(probes, store, owned_only, uid, (n - 1) as nat).push(n - 1)
    }
}

/// Whether the link at `i` is the first that ends the run.
pub open spec fn first_link_fault(
    probes: Seq<LinkProbe>,
    store: Seq<char>,
    owned_only: bool,
    uid: u32,
    i: int,
) -> bool {
    &&& 0 <= i < probes.len()
    &&& link_fault(probes[i], store, owned_only, uid, i as usize) is Some
    &&& forall|j: int|
        0 <= j < i ==> link_fault(#[trigger] probes[j], store, owned_only, uid, j as usize)
            is None
}

/// The state of a run.
#[derive(Debug)]
pub struct RunContext {
    /// What the command line asked for.
    pub options: RunOptions,
    /// Only roots that point into this store are monitored.
    pub store: String,
    /// Whether only targets that the running user owns are monitored.
    pub owned_only: bool,
    /// Whether the root itself is removed, and not its target.
    pub remove_root: bool,
    /// Directories that hold the roots.
    pub directory: Vec<String>,
    /// The temporary-root policies that take part, in the order in which
    /// they are asked.
    pub temporary_root_policies: Vec<(String, TemporaryRootPolicy)>,
    /// The profile policies that take part.
    pub profile_policies: Vec<(String, ProfilePolicy)>,
    /// Length in bytes of the longest name of a policy.
    pub policy_name_max_len: usize,
    /// The system at the start of the run.
    pub current: Current,
    /// User id of the run.
    pub uid: u32,
    /// The sink of the removed paths.
    pub output: Output,
    /// The counts of the run.
    pub statistic: Statistics,
    /// The roots of the run.
    pub gc_roots: Vec<GcRoot>,
    /// For each root, whether it was offered as a candidate. Roots that are
    /// the same link are accounted for at the first of them.
    pub taken: Vec<bool>,
    /// The candidates that wait for the one confirmation: the name of the
    /// policy and the position of the root.
    pub waiting: Vec<(String, usize)>,
    /// The candidates of the profile at hand, by the positions of their
    /// roots.
    pub candidates: Vec<usize>,
    /// Where the run stands.
    pub stage: Stage,
}

/// Length in bytes of the longest name among the first `n` temporary-root
/// policies.
pub open spec fn longest_temporary_name(
    policies: Seq<(String, TemporaryRootPolicy)>,
    n: nat,
) -> usize
    decreases n,
{
    if n == 0 {
        0
    } else {
        let before = longest_temporary_name(policies, (n - 1) as nat);
        let here = encode_utf8(policies[n - 1].0@).len() as usize;
        if here > before {
            here
        } else {
            before
        }
    }
}

/// Length in bytes of the longest name among the first `n` profile policies,
/// and at least `floor`.
pub open spec fn longest_profile_name(
    policies: Seq<(String, ProfilePolicy)>,
    floor: usize,
    n: nat,
) -> usize
    decreases n,
{
    if n == 0 {
        floor
    } else {
        let before = longest_profile_name(policies, floor, (n - 1) as nat);
        let here = encode_utf8(policies[n - 1].0@).len() as usize;
        if here > before {
            here
        } else {
            before
        }
    }
}

/// No name among the first `n` temporary-root policies is longer than the
/// longest.
pub proof fn lemma_longest_temporary_name(
    policies: Seq<(String, TemporaryRootPolicy)>,
    n: nat,
    k: int,
)
    requires
        0 <= k < n,
    ensures
        encode_utf8(policies[k].0@).len() as usize <= longest_temporary_name(policies, n),
    decreases n,
{
    if k < n - 1 {
        lemma_longest_temporary_name(policies, (n - 1) as nat, k);
    }
}

/// The longest name among the first `n` profile policies is at least
/// `floor`.
pub proof fn lemma_longest_profile_name_floor(
    policies: Seq<(String, ProfilePolicy)>,
    floor: usize,
    n: nat,
)
    ensures
        floor <= longest_profile_name(policies, floor, n),
    decreases n,
{
    if n > 0 {
        lemma_longest_profile_name_floor(policies, floor, (n - 1) as nat);
    }
}

/// No name among the first `n` profile policies is longer than the longest.
pub proof fn lemma_longest_profile_name(
    policies: Seq<(String, ProfilePolicy)>,
    floor: usize,
    n: nat,
    k: int,
)
    requires
        0 <= k < n,
    ensures
        encode_utf8(policies[k].0@).len() as usize <= longest_profile_name(policies, floor, n),
    decreases n,
{
    if k < n - 1 {
        lemma_longest_profile_name(policies, floor, (n - 1) as nat, k);
    }
}

impl RunContext {
    /// Sets a run up from what the command line and the configuration say,
    /// for the user `uid` on the system `current`.
    pub fn new(options: RunOptions, config: RunConfig, current: Current, uid: u32) -> (context:
        RunContext)
        ensures
            context.options == options,
            context.store == config.store,
            context.owned_only == config.owned_only.spec_instantiate(uid),
            context.remove_root == config.remove_root,
            context.directory == config.directory,
            context.current == current,
            context.uid == uid,
            context.temporary_root_policies@.len() == enabled_order(
                config.temporary_root_policies@,
                config.temporary_root_policies@.len(),
            ).len(),
            forall|k: int|
                0 <= k < context.temporary_root_policies@.len() ==> mirrors(
                    #[trigger] context.temporary_root_policies@[k],
                    config.temporary_root_policies@[enabled_order(
                        config.temporary_root_policies@,
                        config.temporary_root_policies@.len(),
                    )[k]],
                ),
            in_order(context.temporary_root_policies@),
            config.wf() ==> distinct_names(context.temporary_root_policies@) && distinct_names(
                context.profile_policies@,
            ),
            context.profile_policies@.len() == enabled_profiles(
                config.profile_policies@,
                config.profile_policies@.len(),
            ).len(),
            forall|k: int|
                0 <= k < context.profile_policies@.len() ==> mirrors_profile(
                    #[trigger] context.profile_policies@[k],
                    config.profile_policies@[enabled_profiles(
                        config.profile_policies@,
                        config.profile_policies@.len(),
                    )[k]],
                ),
            context.policy_name_max_len == longest_profile_name(
                context.profile_policies@,
                longest_temporary_name(
                    context.temporary_root_policies@,
                    context.temporary_root_policies@.len(),
                ),
                context.profile_policies@.len(),
            ),
            context.output.first_output,
            context.statistic.traversed.spec_get() == 0,
            context.statistic.monitored.spec_get() == 0,
            context.statistic.expired.spec_get() == 0,
            context.statistic.invalid.spec_get() == 0,
            context.statistic.removed.spec_get() == 0,
            context.gc_roots@.len() == 0,
            context.taken@.len() == 0,
            context.waiting@.len() == 0,
            context.candidates@.len() == 0,
            context.stage == (Stage::Matching { root: 0, policy: 0 }),
            context.wf(),
    {
        let temporary_root_policies = config.enabled_temporary_root_policies();
        let profile_policies = config.enabled_profile_policies();
        let owned_only = config.owned_only.instantiate(uid);
        let mut longest: usize = 0;
        let mut i: usize = 0;
        while i < temporary_root_policies.len()
            invariant
                i <= temporary_root_policies.len(),
                longest == longest_temporary_name(temporary_root_policies@, i as nat),
            decreases temporary_root_policies.len() - i,
        {
            let here = temporary_root_policies[i].0.as_str().len();
            if here > longest {
                longest = here;
            }
            i += 1;
        }
        let ghost floor = longest;
        let mut j: usize = 0;
        while j < profile_policies.len()
            invariant
                j <= profile_policies.len(),
                longest == longest_profile_name(profile_policies@, floor, j as nat),
            decreases profile_policies.len() - j,
        {
            let here = profile_policies[j].0.as_str().len();
            if here > longest {
                longest = here;
            }
            j += 1;
        }
        RunContext {
            options,
            store: config.store,
            owned_only,
            remove_root: config.remove_root,
            directory: config.directory,
            temporary_root_policies,
            profile_policies,
            policy_name_max_len: longest,
            current,
            uid,
            output: Output::new(),
            statistic: Statistics::default(),
            gc_roots: Vec::new(),
            taken: Vec::new(),
            waiting: Vec::new(),
            candidates: Vec::new(),
            stage: Stage::Matching { root: 0, policy: 0 },
        }
    }

    /// Where the removed paths go: nowhere unless an output is named, to the
    /// standard output where it is named `-`, and else to the file of that
    /// name; through a buffer unless the options forbid it.
    pub fn output_writer(options: &RunOptions) -> (target: OutputTarget)
        ensures
            match options.output {
                None => target == OutputTarget::Discard,
                Some(path) => if path_eq(path@, "-"@) {
                    target == (OutputTarget::Stdout { buffered: !options.output_unbuffered })
                } else {
                    target == (OutputTarget::File { path, buffered: !options.output_unbuffered })
                },
            },
    {
        match &options.output {
            None => OutputTarget::Discard,
            Some(path) => {
                if same_path(path.as_str(), "-") {
                    OutputTarget::Stdout { buffered: !options.output_unbuffered }
                } else {
                    OutputTarget::File { path: path.clone(), buffered: !options.output_unbuffered }
                }
            },
        }
    }

    /// Makes the record of a root from what was observed of the link at
    /// position `index`, or passes the link over.
    pub fn filter_and_map_to_gc_root(&self, probe: &LinkProbe, index: usize) -> (r: Result<
        Option<GcRoot>,
        RunError,
    >)
        ensures
            match link_fault(*probe, self.store@, self.owned_only, self.uid, index) {
                Some(e) => r matches Err(failure) && failure == e,
                None => if link_skipped(*probe, self.store@, self.owned_only, self.uid) {
                    r matches Ok(None)
                } else {
                    r matches Ok(Some(root)) && is_root_of(root, *probe, self.current.now)
                },
            },
    {
        let target = match &probe.target {
            Some(target) => target.clone(),
            None => {
                return Err(RunError::ReadLink { index });
            },
        };
        let metadata = match probe.metadata {
            StatOutcome::Found(found) => found,
            _ => {
                return Ok(None);
            },
        };
        if self.owned_only && metadata.uid != self.uid {
            return Ok(None);
        }
        let canonical = match &probe.canonical {
            Some(path) => Some(path.clone()),
            None => None,
        };
        let store_path = match validate_store_path(self.store.as_str(), canonical) {
            Some(path) => path,
            None => {
                return Ok(None);
            },
        };
        let modified = match metadata.modified {
            Some(time) => time,
            None => {
                return Err(RunError::ModifiedTime { index });
            },
        };
        let age = self.current.now.elapsed_since(&modified);
        let owner_home = match &probe.owner_home {
            Some(home) => Some(home.clone()),
            None => None,
        };
        Ok(
            Some(
                GcRoot {
                    path: target,
                    path_metadata: metadata,
                    owner_home,
                    link_path: probe.link_path.clone(),
                    store_path,
                    age,
                },
            ),
        )
    }
}

/// The user whose home directory belongs in the probe of a link: the owner
/// of the target.
pub open spec fn spec_owner(metadata: StatOutcome) -> Option<u32> {
    match metadata {
        StatOutcome::Found(found) => Some(found.uid),
        _ => None,
    }
}

/// The user whose home directory belongs in the probe of a link whose target
/// has the metadata `metadata`: the owner of the target, and nobody where
/// the target was not found.
pub fn owner(metadata: &StatOutcome) -> (r: Option<u32>)
    ensures
        r == spec_owner(*metadata),
{
    match metadata {
        StatOutcome::Found(found) => Some(found.uid),
        _ => None,
    }
}

/// Looks the home directory up that belongs in the probe of a link: that of
/// `owner(metadata)`, as the user database of the machine has it. Where
/// there is no owner nothing is looked up.
pub fn owner_home(metadata: &StatOutcome) -> (r: Option<String>)
    ensures
        spec_owner(*metadata) is None ==> r is None,
{
    match owner(metadata) {
        Some(uid) => home_dir_of(uid),
        None => None,
    }
}

/// What a run has reached: where it stands, what waits, which roots were
/// offered, and what it counted.
pub struct Progress {
    /// Where the run stands.
    pub stage: Stage,
    /// The candidates that wait for the one confirmation.
    pub waiting: Seq<(String, usize)>,
    /// The candidates of the profile at hand.
    pub candidates: Seq<usize>,
    /// For each root, whether it was offered as a candidate.
    pub taken: Seq<bool>,
    /// Links looked at so far.
    pub traversed: usize,
    /// Roots found monitored so far.
    pub monitored: usize,
    /// Roots offered as candidates so far.
    pub expired: usize,
    /// Roots that failed a validation so far.
    pub invalid: usize,
    /// Roots removed so far.
    pub removed: usize,
    /// Whether nothing was written to the output yet.
    pub first_output: bool,
}

/// What a step comes to.
pub struct Outcome {
    /// What the run has reached after the step.
    pub progress: Progress,
    /// What the step has the caller do.
    pub effects: Seq<Effect>,
    /// What the step asks for.
    pub query: Query,
}

impl Progress {
    /// The same, at another stage.
    pub open spec fn at(self, stage: Stage) -> Progress {
        Progress { stage, ..self }
    }

    /// The same, and nothing more to do or to ask.
    pub open spec fn quietly(self, stage: Stage) -> Outcome {
        Outcome { progress: self.at(stage), effects: Seq::empty(), query: Query::Continue }
    }
}

/// How many roots were offered.
pub open spec fn count_taken(taken: Seq<bool>) -> nat
    decreases taken.len(),
{
    if taken.len() == 0 {
        0
    } else {
        count_taken(taken.drop_last()) + if taken.last() {
            1nat
        } else {
            0nat
        }
    }
}

/// No more roots were offered than there are.
pub proof fn lemma_count_taken_bound(taken: Seq<bool>)
    ensures
        count_taken(taken) <= taken.len(),
    decreases taken.len(),
{
    if taken.len() > 0 {
        lemma_count_taken_bound(taken.drop_last());
    }
}

/// Offering a root that was not offered before raises the number of roots
/// offered by one.
pub proof fn lemma_count_taken_update(taken: Seq<bool>, at: int)
    requires
        0 <= at < taken.len(),
        !taken[at],
    ensures
        count_taken(taken.update(at, true)) == count_taken(taken) + 1,
    decreases taken.len(),
{
    let marked = taken.update(at, true);
    if at == taken.len() - 1 {
        assert(marked.drop_last() =~= taken.drop_last());
    } else {
        assert(marked.drop_last() =~= taken.drop_last().update(at, true));
        lemma_count_taken_update(taken.drop_last(), at);
    }
}

/// Where nothing was offered, the number of roots offered is zero.
pub proof fn lemma_count_taken_none(taken: Seq<bool>)
    requires
        forall|i: int| 0 <= i < taken.len() ==> !taken[i],
    ensures
        count_taken(taken) == 0,
    decreases taken.len(),
{
    if taken.len() > 0 {
        lemma_count_taken_none(taken.drop_last());
    }
}

/// Position of the first root among the first `n` whose link is `link`.
pub open spec fn first_link_at(roots: Seq<GcRoot>, link: Seq<char>, n: nat) -> Option<int>
    decreases n,
{
    if n == 0 {
        None
    } else {
        match first_link_at(roots, link, (n - 1) as nat) {
            Some(at) => Some(at),
            None => if roots[n - 1].link_path@ == link {
                Some(n - 1)
            } else {
                None
            },
        }
    }
}

/// Position of the first root whose link is `link`. A link is one root,
/// however often it was found: the account of a root is kept at this
/// position.
pub open spec fn root_of_link(roots: Seq<GcRoot>, link: Seq<char>) -> Option<int> {
    first_link_at(roots, link, roots.len())
}

/// The position that `first_link_at` names is that of a root with the link,
/// and no root before it has the link; where it names none, no root has.
pub proof fn lemma_first_link_at(roots: Seq<GcRoot>, link: Seq<char>, n: nat)
    requires
        n <= roots.len(),
    ensures
        match first_link_at(roots, link, n) {
            Some(at) => 0 <= at < n && roots[at].link_path@ == link && forall|k: int|
                0 <= k < at ==> (#[trigger] roots[k]).link_path@ != link,
            None => forall|k: int| 0 <= k < n ==> (#[trigger] roots[k]).link_path@ != link,
        },
    decreases n,
{
    if n > 0 {
        lemma_first_link_at(roots, link, (n - 1) as nat);
    }
}

/// Finds the first root whose link is `link`.
pub fn find_link(roots: &Vec<GcRoot>, link: &String) -> (r: Option<usize>)
    ensures
        r matches Some(at) ==> at < roots.len() && root_of_link(roots@, link@) == Some(at as int),
        r is None ==> root_of_link(roots@, link@) is None,
{
    let mut i: usize = 0;
    while i < roots.len()
        invariant
            i <= roots.len(),
            forall|k: int| 0 <= k < i ==> (#[trigger] roots@[k]).link_path@ != link@,
        decreases roots.len() - i,
    {
        if roots[i].link_path == *link {
            proof {
                lemma_first_link_at(roots@, link@, roots@.len());
            }
            return Some(i);
        }
        i += 1;
    }
    proof {
        lemma_first_link_at(roots@, link@, roots@.len());
    }
    None
}

/// The positions at which the first `n` of `wanted` are accounted for among
/// `roots`, in order; a root whose link is that of no root of the run has no
/// position.
pub open spec fn positions_of(roots: Seq<GcRoot>, wanted: Seq<GcRoot>, n: nat) -> Seq<usize>
    decreases n,
{
    if n == 0 {
        Seq::empty()
    } else {
        let before = positions_of(roots, wanted, (n - 1) as nat);
        match root_of_link(roots, wanted[n - 1].link_path@) {
            Some(at) => before.push(at as usize),
            None => before,
        }
    }
}

/// Finds the positions at which `wanted` are accounted for among `roots`.
pub fn positions(roots: &Vec<GcRoot>, wanted: &Vec<GcRoot>) -> (r: Vec<usize>)
    ensures
        r@ == positions_of(roots@, wanted@, wanted@.len()),
{
    let mut found: Vec<usize> = Vec::new();
    let mut i: usize = 0;
    while i < wanted.len()
        invariant
            i <= wanted.len(),
            found@ == positions_of(roots@, wanted@, i as nat),
        decreases wanted.len() - i,
    {
        match find_link(roots, &wanted[i].link_path) {
            Some(at) => {
                found.push(at);
            },
            None => {},
        }
        i += 1;
    }
    found
}

impl RunContext {
    /// What the run has reached.
    pub open spec fn progress(&self) -> Progress {
        Progress {
            stage: self.stage,
            waiting: self.waiting@,
            candidates: self.candidates@,
            taken: self.taken@,
            traversed: self.statistic.traversed.spec_get(),
            monitored: self.statistic.monitored.spec_get(),
            expired: self.statistic.expired.spec_get(),
            invalid: self.statistic.invalid.spec_get(),
            removed: self.statistic.removed.spec_get(),
            first_output: self.output.first_output,
        }
    }

    /// Whether the two runs were set up alike and have the same roots.
    pub open spec fn same_setup(&self, other: RunContext) -> bool {
        &&& self.options == other.options
        &&& self.store == other.store
        &&& self.owned_only == other.owned_only
        &&& self.remove_root == other.remove_root
        &&& self.directory == other.directory
        &&& self.temporary_root_policies == other.temporary_root_policies
        &&& self.profile_policies == other.profile_policies
        &&& self.policy_name_max_len == other.policy_name_max_len
        &&& self.current == other.current
        &&& self.uid == other.uid
        &&& self.gc_roots == other.gc_roots
    }

    /// The path that is removed for `root`: the link itself where the run
    /// removes roots, and its target where it does not.
    pub open spec fn spec_path_to_remove(&self, root: GcRoot) -> String {
        if self.remove_root {
            root.link_path
        } else {
            root.path
        }
    }

    /// What the operator is told when `action` is taken on `root` under the
    /// policy `name`.
    pub open spec fn spec_notice(&self, name: String, root: GcRoot, action: Action) -> Effect {
        Effect::Notify(
            Notice {
                policy_name: name,
                action,
                dry_run: action == Action::Remove && self.options.dry_run,
                path: self.spec_path_to_remove(root),
                age: root.age,
            },
        )
    }

    /// Whether the root at `at` can still be offered as a candidate: it is a
    /// root of the run and was not offered before.
    pub open spec fn open_to_offer(&self, base: Progress, at: int) -> bool {
        0 <= at < self.gc_roots@.len() && at < base.taken.len() && !base.taken[at]
    }

    /// The beginning of the removal of the root at `at` under the policy
    /// `name`: the operator is told, and the run waits at `deleting` for the
    /// deletion, which a rehearsal does not ask for.
    #[verifier::opaque]
    pub open spec fn spec_removal(
        &self,
        base: Progress,
        name: String,
        at: int,
        deleting: Stage,
    ) -> Outcome {
        let root = self.gc_roots@[at];
        Outcome {
            progress: base.at(deleting),
            effects: seq![self.spec_notice(name, root, Action::Remove)],
            query: if self.options.dry_run {
                Query::Continue
            } else {
                Query::Delete { path: self.spec_path_to_remove(root) }
            },
        }
    }

    /// The end of the removal of the root at `at`. Once the file is deleted,
    /// or at once in a rehearsal, the removal is counted and the path is
    /// written to the output. A deletion that failed ends the run, and so
    /// does an answer that was not asked for.
    #[verifier::opaque]
    pub open spec fn spec_deleted(
        &self,
        base: Progress,
        at: int,
        event: Event,
        then: Stage,
    ) -> Result<Outcome, RunError> {
        let settled = Outcome {
            progress: Progress {
                stage: then,
                removed: wrapped_sum(base.removed, 1),
                first_output: false,
                ..base
            },
            effects: seq![
                Effect::Emit {
                    after_delimiter: !base.first_output,
                    path: self.spec_path_to_remove(self.gc_roots@[at]),
                },
            ],
            query: Query::Continue,
        };
        match event {
            Event::Continue => if self.options.dry_run {
                Ok(settled)
            } else {
                Err(RunError::UnexpectedEvent)
            },
            Event::Deleted(done) => if self.options.dry_run {
                Err(RunError::UnexpectedEvent)
            } else if done {
                Ok(settled)
            } else {
                Err(RunError::Remove { root: at as usize })
            },
            _ => Err(RunError::UnexpectedEvent),
        }
    }

    /// What becomes of the root at `at` when it is offered as a candidate:
    /// it counts as offered from now on. A run that never asks begins its
    /// removal. A run that asks once announces it and lets it wait. A run
    /// that always asks announces it and asks.
    #[verifier::opaque]
    pub open spec fn spec_offer(
        &self,
        base: Progress,
        name: String,
        at: int,
        then: Stage,
        confirming: Stage,
        deleting: Stage,
    ) -> Outcome {
        let marked = Progress { taken: base.taken.update(at, true), ..base };
        let announced = seq![self.spec_notice(name, self.gc_roots@[at], Action::AboutToRemove)];
        match self.options.interactive {
            Interactive::Never => self.spec_removal(marked, name, at, deleting),
            Interactive::Once => Outcome {
                progress: Progress {
                    stage: then,
                    waiting: marked.waiting.push((name, at as usize)),
                    ..marked
                },
                effects: announced,
                query: Query::Continue,
            },
            Interactive::Always => Outcome {
                progress: marked.at(confirming),
                effects: announced,
                query: Query::Confirm,
            },
        }
    }

    /// What becomes of a candidate once the operator has answered: its
    /// removal begins on a yes and it is spared on a no; the run ends where
    /// the operator could not be asked.
    #[verifier::opaque]
    pub open spec fn spec_answer(
        &self,
        base: Progress,
        name: String,
        at: int,
        answer: Option<bool>,
        then: Stage,
        deleting: Stage,
    ) -> Result<Outcome, RunError> {
        match answer {
            None => Err(RunError::Prompt),
            Some(true) => Ok(self.spec_removal(base, name, at, deleting)),
            Some(false) => Ok(
                Outcome {
                    progress: base.at(then),
                    effects: seq![self.spec_notice(name, self.gc_roots@[at], Action::Ignored)],
                    query: Query::Continue,
                },
            ),
        }
    }

    /// What follows when the policy at `policy` monitors the root at `root`:
    /// the root counts as monitored; if it has expired and was not offered
    /// before, it counts as expired too and is offered, and if not nothing
    /// happens to it.
    #[verifier::opaque]
    pub open spec fn spec_matched(&self, base: Progress, root: int, policy: int) -> Outcome {
        let entry = self.temporary_root_policies@[policy];
        let item = self.gc_roots@[root];
        let next = Stage::Matching { root: (root + 1) as usize, policy: 0 };
        let monitored = Progress { monitored: wrapped_sum(base.monitored, 1), ..base };
        let own = root_of_link(self.gc_roots@, item.link_path@);
        if entry.1.spec_expired(item) && own is Some && self.open_to_offer(base, own->0) {
            self.spec_offer(
                Progress { expired: wrapped_sum(monitored.expired, 1), ..monitored },
                entry.0,
                own->0,
                next,
                Stage::ConfirmingRoot { root: root as usize, policy: policy as usize },
                Stage::DeletingRoot { root: root as usize },
            )
        } else {
            monitored.quietly(next)
        }
    }

    /// The step that asks the next policy about a root. When all roots are
    /// done the profiles follow; when no policy is left the next root
    /// follows; a policy that ignores the root hands it to the next policy.
    pub open spec fn spec_matching(&self, base: Progress, root: usize, policy: usize) -> Outcome {
        if root >= self.gc_roots@.len() {
            base.quietly(Stage::Profiles { policy: 0, path: 0 })
        } else if policy >= self.temporary_root_policies@.len() {
            base.quietly(Stage::Matching { root: (root + 1) as usize, policy: 0 })
        } else {
            match self.temporary_root_policies@[policy as int].1.spec_screen(
                self.gc_roots@[root as int],
            ) {
                Screening::Ignored => base.quietly(
                    Stage::Matching { root, policy: (policy + 1) as usize },
                ),
                Screening::Monitored => self.spec_matched(base, root as int, policy as int),
                Screening::Filter => Outcome {
                    progress: base.at(Stage::Filtering { root, policy }),
                    effects: Seq::empty(),
                    query: Query::Filter {
                        policy,
                        input: Input {
                            path: self.gc_roots@[root as int].path,
                            gc_root: self.gc_roots@[root as int].link_path,
                        },
                    },
                },
            }
        }
    }

    /// The step that takes the end of a filter: on a yes the policy monitors
    /// the root, on a no the next policy is asked, and a filter without a
    /// verdict ends the run.
    pub open spec fn spec_filtered(
        &self,
        base: Progress,
        root: usize,
        policy: usize,
        outcome: FilterOutcome,
    ) -> Result<Outcome, RunError> {
        if root >= self.gc_roots@.len() || policy >= self.temporary_root_policies@.len() {
            Err(RunError::UnexpectedEvent)
        } else {
            match spec_verdict(outcome) {
                Err(e) => Err(RunError::Filter(e)),
                Ok(false) => Ok(
                    base.quietly(Stage::Matching { root, policy: (policy + 1) as usize }),
                ),
                Ok(true) => Ok(self.spec_matched(base, root as int, policy as int)),
            }
        }
    }

    /// The position at which the root at `root` is accounted for.
    pub open spec fn own(&self, root: usize) -> Option<int> {
        if root < self.gc_roots@.len() {
            root_of_link(self.gc_roots@, self.gc_roots@[root as int].link_path@)
        } else {
            None
        }
    }

    /// The step that takes the answer about an expired root.
    pub open spec fn spec_root_answered(
        &self,
        base: Progress,
        root: usize,
        policy: usize,
        answer: Option<bool>,
    ) -> Result<Outcome, RunError> {
        if self.own(root) is None || policy >= self.temporary_root_policies@.len() {
            Err(RunError::UnexpectedEvent)
        } else {
            self.spec_answer(
                base,
                self.temporary_root_policies@[policy as int].0,
                self.own(root)->0,
                answer,
                Stage::Matching { root: (root + 1) as usize, policy: 0 },
                Stage::DeletingRoot { root },
            )
        }
    }

    /// The step that takes the end of the deletion of an expired root.
    pub open spec fn spec_root_deleted(&self, base: Progress, root: usize, event: Event) -> Result<
        Outcome,
        RunError,
    > {
        if self.own(root) is None {
            Err(RunError::UnexpectedEvent)
        } else {
            self.spec_deleted(
                base,
                self.own(root)->0,
                event,
                Stage::Matching { root: (root + 1) as usize, policy: 0 },
            )
        }
    }

    /// The step that turns to the next profile. When all profiles are done,
    /// a run with waiting candidates asks its one question, and a run
    /// without is over.
    pub open spec fn spec_profiles(&self, base: Progress, policy: usize, path: usize) -> Outcome {
        if policy >= self.profile_policies@.len() {
            if base.waiting.len() > 0 {
                Outcome {
                    progress: base.at(Stage::ConfirmingAll),
                    effects: Seq::empty(),
                    query: Query::Confirm,
                }
            } else {
                Outcome {
                    progress: base.at(Stage::Finished),
                    effects: Seq::empty(),
                    query: Query::Done,
                }
            }
        } else if path >= self.profile_policies@[policy as int].1.config.profile_paths@.len() {
            base.quietly(Stage::Profiles { policy: (policy + 1) as usize, path: 0 })
        } else {
            Outcome {
                progress: base.at(Stage::ReadingProfile { policy, path }),
                effects: Seq::empty(),
                query: Query::Profile {
                    path: self.profile_policies@[policy as int].1.config.profile_paths@[path
                        as int],
                },
            }
        }
    }

    /// The step that takes what is on disk of a profile. A profile that is
    /// passed over leaves no trace. Of one that is read, every generation
    /// counts as monitored, and the roots of those that its policy does not
    /// keep become the candidates at hand.
    pub open spec fn spec_profile_read(
        &self,
        base: Progress,
        policy: usize,
        path: usize,
        probe: ProfileProbe,
    ) -> Result<Outcome, RunError> {
        if policy >= self.profile_policies@.len() || path
            >= self.profile_policies@[policy as int].1.config.profile_paths@.len() {
            Err(RunError::UnexpectedEvent)
        } else {
            let config = self.profile_policies@[policy as int].1.config;
            let profile_path = config.profile_paths@[path as int]@;
            if profile_skipped(probe.metadata, self.owned_only, self.uid) {
                Ok(base.quietly(Stage::Profiles { policy, path: (path + 1) as usize }))
            } else {
                match profile_failure(profile_path, probe, self.gc_roots@) {
                    Some(e) => Err(e),
                    None => match judging_failure(config, self.current) {
                        Some(e) => Err(e),
                        None => {
                            let generations = profile_generations(
                                profile_path,
                                probe,
                                self.gc_roots@,
                            );
                            let unkept = unkept_roots(
                                config,
                                generations,
                                probe.current_generation->0@,
                                self.current,
                                generations.len(),
                            );
                            Ok(
                                Progress {
                                    candidates: positions_of(self.gc_roots@, unkept, unkept.len()),
                                    monitored: wrapped_sum(
                                        base.monitored,
                                        generations.len() as usize,
                                    ),
                                    ..base
                                }.quietly(Stage::Judging { policy, path, next: 0 }),
                            )
                        },
                    },
                }
            }
        }
    }

    /// The step that deals with the next candidate of the profile at hand. A
    /// root that was offered before is passed over: one policy at most takes
    /// a root. Every other candidate counts as expired and is offered.
    pub open spec fn spec_judging(
        &self,
        base: Progress,
        policy: usize,
        path: usize,
        next: usize,
    ) -> Result<Outcome, RunError> {
        if policy >= self.profile_policies@.len() || path == usize::MAX {
            Err(RunError::UnexpectedEvent)
        } else if next >= base.candidates.len() {
            Ok(base.quietly(Stage::Profiles { policy, path: (path + 1) as usize }))
        } else if !self.open_to_offer(base, base.candidates[next as int] as int) {
            Ok(base.quietly(Stage::Judging { policy, path, next: (next + 1) as usize }))
        } else {
            Ok(
                self.spec_offer(
                    Progress { expired: wrapped_sum(base.expired, 1), ..base },
                    self.profile_policies@[policy as int].0,
                    base.candidates[next as int] as int,
                    Stage::Judging { policy, path, next: (next + 1) as usize },
                    Stage::ConfirmingGeneration { policy, path, next },
                    Stage::DeletingGeneration { policy, path, next },
                ),
            )
        }
    }

    /// The step that takes the answer about a generation.
    pub open spec fn spec_generation_answered(
        &self,
        base: Progress,
        policy: usize,
        path: usize,
        next: usize,
        answer: Option<bool>,
    ) -> Result<Outcome, RunError> {
        if policy >= self.profile_policies@.len() || next >= base.candidates.len()
            || base.candidates[next as int] >= self.gc_roots@.len() {
            Err(RunError::UnexpectedEvent)
        } else {
            self.spec_answer(
                base,
                self.profile_policies@[policy as int].0,
                base.candidates[next as int] as int,
                answer,
                Stage::Judging { policy, path, next: (next + 1) as usize },
                Stage::DeletingGeneration { policy, path, next },
            )
        }
    }

    /// The step that takes the end of the deletion of a generation.
    pub open spec fn spec_generation_deleted(
        &self,
        base: Progress,
        policy: usize,
        path: usize,
        next: usize,
        event: Event,
    ) -> Result<Outcome, RunError> {
        if next >= base.candidates.len() || base.candidates[next as int] >= self.gc_roots@.len() {
            Err(RunError::UnexpectedEvent)
        } else {
            self.spec_deleted(
                base,
                base.candidates[next as int] as int,
                event,
                Stage::Judging { policy, path, next: (next + 1) as usize },
            )
        }
    }

    /// The step that takes the answer to the one question: on a yes all
    /// that waits is removed, on a no nothing is.
    pub open spec fn spec_all_answered(&self, base: Progress, answer: Option<bool>) -> Result<
        Outcome,
        RunError,
    > {
        match answer {
            None => Err(RunError::Prompt),
            Some(true) => Ok(base.quietly(Stage::Removing { next: 0 })),
            Some(false) => Ok(
                Outcome {
                    progress: base.at(Stage::Finished),
                    effects: Seq::empty(),
                    query: Query::Done,
                },
            ),
        }
    }

    /// The step that begins the removal of the next of the waiting
    /// candidates.
    pub open spec fn spec_removing(&self, base: Progress, next: usize) -> Result<
        Outcome,
        RunError,
    > {
        if next >= base.waiting.len() {
            Ok(
                Outcome {
                    progress: base.at(Stage::Finished),
                    effects: Seq::empty(),
                    query: Query::Done,
                },
            )
        } else if base.waiting[next as int].1 >= self.gc_roots@.len() {
            Err(RunError::UnexpectedEvent)
        } else {
            Ok(
                self.spec_removal(
                    base,
                    base.waiting[next as int].0,
                    base.waiting[next as int].1 as int,
                    Stage::DeletingWaiting { next },
                ),
            )
        }
    }

    /// The step that takes the end of the deletion of a waiting candidate.
    pub open spec fn spec_waiting_deleted(
        &self,
        base: Progress,
        next: usize,
        event: Event,
    ) -> Result<Outcome, RunError> {
        if next >= base.waiting.len() || base.waiting[next as int].1 >= self.gc_roots@.len() {
            Err(RunError::UnexpectedEvent)
        } else {
            self.spec_deleted(
                base,
                base.waiting[next as int].1 as int,
                event,
                Stage::Removing { next: (next + 1) as usize },
            )
        }
    }

    /// What a step comes to, given where the run stands and what it is
    /// handed. An answer to a question that was not asked ends the run.
    #[verifier::opaque]
    pub open spec fn spec_step(&self, base: Progress, event: Event) -> Result<Outcome, RunError> {
        match (base.stage, event) {
            (Stage::Matching { root, policy }, Event::Continue) => Ok(
                self.spec_matching(base, root, policy),
            ),
            (Stage::Filtering { root, policy }, Event::Filter(outcome)) => self.spec_filtered(
                base,
                root,
                policy,
                outcome,
            ),
            (
                Stage::ConfirmingRoot { root, policy },
                Event::Answer(answer),
            ) => self.spec_root_answered(base, root, policy, answer),
            (Stage::DeletingRoot { root }, event) => self.spec_root_deleted(base, root, event),
            (Stage::Profiles { policy, path }, Event::Continue) => Ok(
                self.spec_profiles(base, policy, path),
            ),
            (
                Stage::ReadingProfile { policy, path },
                Event::Profile(probe),
            ) => self.spec_profile_read(base, policy, path, probe),
            (Stage::Judging { policy, path, next }, Event::Continue) => self.spec_judging(
                base,
                policy,
                path,
                next,
            ),
            (
                Stage::ConfirmingGeneration { policy, path, next },
                Event::Answer(answer),
            ) => self.spec_generation_answered(base, policy, path, next, answer),
            (
                Stage::DeletingGeneration { policy, path, next },
                event,
            ) => self.spec_generation_deleted(base, policy, path, next, event),
            (Stage::ConfirmingAll, Event::Answer(answer)) => self.spec_all_answered(base, answer),
            (Stage::Removing { next }, Event::Continue) => self.spec_removing(base, next),
            (Stage::DeletingWaiting { next }, event) => self.spec_waiting_deleted(
                base,
                next,
                event,
            ),
            (Stage::Finished, _) => Ok(
                Outcome { progress: base, effects: Seq::empty(), query: Query::Done },
            ),
            _ => Err(RunError::UnexpectedEvent),
        }
    }

    /// What the next step of the run comes to when it is handed `event`.
    pub open spec fn spec_run(&self, event: Event) -> Result<Outcome, RunError> {
        self.spec_step(self.progress(), event)
    }

    /// What a pass comes to that starts where the run has reached `from` and
    /// is handed `events` one after the other: what the run has reached in
    /// the end, all that it had done on the way, and what it asked for
    /// last. The first step that fails, fails the pass.
    pub open spec fn spec_pass(&self, from: Progress, events: Seq<Event>) -> Result<
        Outcome,
        RunError,
    >
        decreases events.len(),
    {
        if events.len() == 0 {
            Ok(Outcome { progress: from, effects: Seq::empty(), query: Query::Continue })
        } else {
            match self.spec_step(from, events[0]) {
                Err(e) => Err(e),
                Ok(first) => if events.len() == 1 {
                    Ok(first)
                } else {
                    match self.spec_pass(first.progress, events.drop_first()) {
                        Err(e) => Err(e),
                        Ok(rest) => Ok(
                            Outcome {
                                progress: rest.progress,
                                effects: first.effects + rest.effects,
                                query: rest.query,
                            },
                        ),
                    }
                },
            }
        }
    }

    /// How many removals the run still owes to the roots it has offered:
    /// one for each candidate that waits, and one for a candidate that is
    /// being asked about or deleted.
    pub open spec fn owed(base: Progress) -> int {
        match base.stage {
            Stage::ConfirmingRoot { .. } | Stage::ConfirmingGeneration { .. } => base.waiting.len()
                as int + 1,
            Stage::DeletingRoot { .. } | Stage::DeletingGeneration { .. } => base.waiting.len()
                as int + 1,
            Stage::Removing { next } => base.waiting.len() - next,
            Stage::DeletingWaiting { next } => base.waiting.len() - next,
            Stage::Finished => 0,
            _ => base.waiting.len() as int,
        }
    }

    /// Whether the account of the run is in order: every root has its mark,
    /// no more roots are there than links were traversed, and the removals
    /// made and the removals owed are no more than the roots offered.
    pub open spec fn accounted(&self, base: Progress) -> bool {
        &&& base.taken.len() == self.gc_roots@.len()
        &&& self.gc_roots@.len() <= base.traversed
        &&& base.removed + Self::owed(base) <= count_taken(base.taken)
        &&& base.waiting.len() <= count_taken(base.taken)
        &&& base.stage matches Stage::Removing { next } ==> next <= base.waiting.len()
        &&& base.stage matches Stage::DeletingWaiting { next } ==> next < base.waiting.len()
    }

    /// The account of the run is in order.
    pub open spec fn wf(&self) -> bool {
        self.accounted(self.progress())
    }
}

impl RunContext {
    /// Whether the run `self` is what the run `before` becomes by a step
    /// that comes to `outcome`, and `step` is what that step hands out.
    pub open spec fn reaches(&self, before: RunContext, outcome: Outcome, step: Step) -> bool {
        &&& self.same_setup(before)
        &&& self.progress() == outcome.progress
        &&& step.effects@ == outcome.effects
        &&& step.query == outcome.query
    }

    /// Whether `result` is what a step hands out that should come to
    /// `expected`, where `self` is the run after the step and `before` the
    /// run before it. A step that fails leaves the run as it was.
    pub open spec fn answers(
        &self,
        before: RunContext,
        expected: Result<Outcome, RunError>,
        result: Result<Step, RunError>,
    ) -> bool {
        match expected {
            Ok(outcome) => result matches Ok(step) && self.reaches(before, outcome, step),
            Err(e) => result matches Err(failure) && failure == e && *self == before,
        }
    }

    /// Takes the links of the directories of roots, in the order in which
    /// they were found, makes them the roots of the run, and sets the run to
    /// its beginning: nothing is offered, nothing waits, and the links are
    /// all that is counted. The first link that cannot be read, or whose
    /// target has no time of modification though it is not passed over, ends
    /// the run and leaves it as it was.
    pub fn gc_roots(&mut self, probes: &Vec<LinkProbe>) -> (r: Result<(), RunError>)
        ensures
            (exists|i: int|
                first_link_fault(
                    probes@,
                    old(self).store@,
                    old(self).owned_only,
                    old(self).uid,
                    i,
                )) ==> {
                let at = choose|i: int|
                    first_link_fault(
                        probes@,
                        old(self).store@,
                        old(self).owned_only,
                        old(self).uid,
                        i,
                    );
                &&& r matches Err(e)
                &&& Some(e) == link_fault(
                    probes@[at],
                    old(self).store@,
                    old(self).owned_only,
                    old(self).uid,
                    at as usize,
                )
                &&& *final(self) == *old(self)
            },
            !(exists|i: int|
                first_link_fault(
                    probes@,
                    old(self).store@,
                    old(self).owned_only,
                    old(self).uid,
                    i,
                )) ==> {
                let kept = rooted(
                    probes@,
                    old(self).store@,
                    old(self).owned_only,
                    old(self).uid,
                    probes@.len(),
                );
                &&& r is Ok
                &&& final(self).gc_roots@.len() == kept.len()
                &&& forall|k: int|
                    0 <= k < kept.len() ==> is_root_of(
                        #[trigger] final(self).gc_roots@[k],
                        probes@[kept[k]],
                        old(self).current.now,
                    )
                &&& final(self).stage == (Stage::Matching { root: 0, policy: 0 })
                &&& final(self).waiting@.len() == 0
                &&& final(self).candidates@.len() == 0
                &&& final(self).taken@.len() == kept.len()
                &&& forall|k: int| 0 <= k < kept.len() ==> !(#[trigger] final(self).taken@[k])
                &&& final(self).statistic.traversed.spec_get() == probes@.len()
                &&& final(self).statistic.monitored.spec_get() == 0
                &&& final(self).statistic.expired.spec_get() == 0
                &&& final(self).statistic.invalid.spec_get() == 0
                &&& final(self).statistic.removed.spec_get() == 0
                &&& final(self).output == old(self).output
                &&& final(self).wf()
            },
            final(self).options == old(self).options,
            final(self).store == old(self).store,
            final(self).owned_only == old(self).owned_only,
            final(self).remove_root == old(self).remove_root,
            final(self).directory == old(self).directory,
            final(self).temporary_root_policies == old(self).temporary_root_policies,
            final(self).profile_policies == old(self).profile_policies,
            final(self).policy_name_max_len == old(self).policy_name_max_len,
            final(self).current == old(self).current,
            final(self).uid == old(self).uid,
    {
        let mut roots: Vec<GcRoot> = Vec::new();
        let mut taken: Vec<bool> = Vec::new();
        let mut i: usize = 0;
        while i < probes.len()
            invariant
                i <= probes.len(),
                *self == *old(self),
                forall|j: int|
                    0 <= j < i ==> link_fault(
                        #[trigger] probes@[j],
                        self.store@,
                        self.owned_only,
                        self.uid,
                        j as usize,
                    ) is None,
                roots@.len() <= i,
                taken@.len() == roots@.len(),
                forall|k: int| 0 <= k < taken@.len() ==> !(#[trigger] taken@[k]),
                roots@.len() == rooted(
                    probes@,
                    self.store@,
                    self.owned_only,
                    self.uid,
                    i as nat,
                ).len(),
                forall|k: int|
                    0 <= k < roots@.len() ==> is_root_of(
                        #[trigger] roots@[k],
                        probes@[rooted(
                            probes@,
                            self.store@,
                            self.owned_only,
                            self.uid,
                            i as nat,
                        )[k]],
                        self.current.now,
                    ),
            decreases probes.len() - i,
        {
            match self.filter_and_map_to_gc_root(&probes[i], i) {
                Err(e) => {
                    proof {
                        let store = self.store@;
                        assert(first_link_fault(
                            probes@,
                            store,
                            self.owned_only,
                            self.uid,
                            i as int,
                        ));
                        let chosen = choose|k: int|
                            first_link_fault(probes@, store, self.owned_only, self.uid, k);
                        if chosen < i {
                            assert(link_fault(
                                probes@[chosen],
                                store,
                                self.owned_only,
                                self.uid,
                                chosen as usize,
                            ) is None);
                        }
                        if i < chosen {
                            assert(link_fault(
                                probes@[i as int],
                                store,
                                self.owned_only,
                                self.uid,
                                i,
                            ) is None);
                        }
                    }
                    return Err(e);
                },
                Ok(None) => {},
                Ok(Some(root)) => {
                    roots.push(root);
                    taken.push(false);
                },
            }
            i += 1;
        }
        proof {
            assert forall|k: int|
                !first_link_fault(probes@, self.store@, self.owned_only, self.uid, k) by {
                if 0 <= k < probes@.len() {
                    assert(link_fault(
                        probes@[k],
                        self.store@,
                        self.owned_only,
                        self.uid,
                        k as usize,
                    ) is None);
                }
            }
            lemma_count_taken_none(taken@);
        }
        self.statistic = Statistics::default();
        self.statistic.traversed.add(probes.len());
        self.gc_roots = roots;
        self.taken = taken;
        self.waiting = Vec::new();
        self.candidates = Vec::new();
        self.stage = Stage::Matching { root: 0, policy: 0 };
        Ok(())
    }

    /// The path that is removed for `item`: the link itself where the run
    /// removes roots, and its target where it does not.
    pub fn path_to_remove<'a>(&self, item: &'a GcRoot) -> (r: &'a String)
        ensures
            *r == self.spec_path_to_remove(*item),
    {
        if self.remove_root {
            &item.link_path
        } else {
            &item.path
        }
    }

    /// What the operator is told when `action` is taken on `item` under the
    /// policy `policy_name`.
    pub fn notify_action(&self, policy_name: &String, item: &GcRoot, action: Action) -> (r: Effect)
        ensures
            r == self.spec_notice(*policy_name, *item, action),
    {
        let dry_run = match action {
            Action::Remove => self.options.dry_run,
            _ => false,
        };
        Effect::Notify(
            Notice {
                policy_name: policy_name.clone(),
                action,
                dry_run,
                path: self.path_to_remove(item).clone(),
                age: item.age,
            },
        )
    }

    fn quiet(&mut self, stage: Stage) -> (step: Step)
        ensures
            final(self).reaches(*old(self), old(self).progress().quietly(stage), step),
    {
        self.stage = stage;
        Step { effects: Vec::new(), query: Query::Continue }
    }

    fn close(&mut self) -> (step: Step)
        ensures
            final(self).reaches(
                *old(self),
                Outcome {
                    progress: old(self).progress().at(Stage::Finished),
                    effects: Seq::empty(),
                    query: Query::Done,
                },
                step,
            ),
    {
        self.stage = Stage::Finished;
        Step { effects: Vec::new(), query: Query::Done }
    }

    /// Begins the removal of the root at `at` under the policy
    /// `policy_name`: the operator is told, and the deletion is asked for
    /// unless the run is a rehearsal.
    fn remove(&mut self, policy_name: String, at: usize, deleting: Stage) -> (step: Step)
        requires
            at < old(self).gc_roots.len(),
        ensures
            final(self).reaches(
                *old(self),
                old(self).spec_removal(old(self).progress(), policy_name, at as int, deleting),
                step,
            ),
    {
        proof {
            reveal(RunContext::spec_removal);
        }
        let mut effects: Vec<Effect> = Vec::new();
        effects.push(self.notify_action(&policy_name, &self.gc_roots[at], Action::Remove));
        let query = if self.options.dry_run {
            Query::Continue
        } else {
            Query::Delete { path: self.path_to_remove(&self.gc_roots[at]).clone() }
        };
        self.stage = deleting;
        proof {
            let expected = old(self).spec_removal(
                old(self).progress(),
                policy_name,
                at as int,
                deleting,
            );
            assert(effects@ =~= expected.effects);
        }
        Step { effects, query }
    }

    /// Ends the removal of the root at `at`: once the file is deleted, or at
    /// once in a rehearsal, the removal is counted and the path goes to the
    /// output.
    fn settle(&mut self, at: usize, event: Event, then: Stage) -> (r: Result<Step, RunError>)
        requires
            at < old(self).gc_roots.len(),
        ensures
            final(self).answers(
                *old(self),
                old(self).spec_deleted(old(self).progress(), at as int, event, then),
                r,
            ),
    {
        proof {
            reveal(RunContext::spec_deleted);
        }
        let done = match event {
            Event::Continue => self.options.dry_run,
            Event::Deleted(done) => {
                if self.options.dry_run {
                    return Err(RunError::UnexpectedEvent);
                }
                if !done {
                    return Err(RunError::Remove { root: at });
                }
                true
            },
            _ => false,
        };
        if !done {
            return Err(RunError::UnexpectedEvent);
        }
        self.statistic.removed.increase();
        let path = self.path_to_remove(&self.gc_roots[at]).clone();
        let written = self.output.output(path);
        let mut effects: Vec<Effect> = Vec::new();
        effects.push(written);
        self.stage = then;
        proof {
            let expected = old(self).spec_deleted(old(self).progress(), at as int, event, then);
            assert(effects@ =~= expected->Ok_0.effects);
        }
        Ok(Step { effects, query: Query::Continue })
    }

    fn offer(
        &mut self,
        policy_name: String,
        at: usize,
        then: Stage,
        confirming: Stage,
        deleting: Stage,
    ) -> (step: Step)
        requires
            at < old(self).gc_roots.len(),
            at < old(self).taken.len(),
        ensures
            final(self).reaches(
                *old(self),
                old(self).spec_offer(
                    old(self).progress(),
                    policy_name,
                    at as int,
                    then,
                    confirming,
                    deleting,
                ),
                step,
            ),
    {
        proof {
            reveal(RunContext::spec_offer);
            reveal(RunContext::spec_removal);
        }
        self.taken.set(at, true);
        match self.options.interactive {
            Interactive::Never => self.remove(policy_name, at, deleting),
            Interactive::Once => {
                let mut effects: Vec<Effect> = Vec::new();
                effects.push(
                    self.notify_action(&policy_name, &self.gc_roots[at], Action::AboutToRemove),
                );
                self.waiting.push((policy_name, at));
                self.stage = then;
                Step { effects, query: Query::Continue }
            },
            Interactive::Always => {
                let mut effects: Vec<Effect> = Vec::new();
                effects.push(
                    self.notify_action(&policy_name, &self.gc_roots[at], Action::AboutToRemove),
                );
                self.stage = confirming;
                Step { effects, query: Query::Confirm }
            },
        }
    }

    fn answer(
        &mut self,
        policy_name: String,
        at: usize,
        answer: Option<bool>,
        then: Stage,
        deleting: Stage,
    ) -> (r: Result<Step, RunError>)
        requires
            at < old(self).gc_roots.len(),
        ensures
            final(self).answers(
                *old(self),
                old(self).spec_answer(
                    old(self).progress(),
                    policy_name,
                    at as int,
                    answer,
                    then,
                    deleting,
                ),
                r,
            ),
    {
        proof {
            reveal(RunContext::spec_answer);
        }
        match answer {
            None => Err(RunError::Prompt),
            Some(true) => Ok(self.remove(policy_name, at, deleting)),
            Some(false) => {
                let mut effects: Vec<Effect> = Vec::new();
                effects.push(self.notify_action(&policy_name, &self.gc_roots[at], Action::Ignored));
                self.stage = then;
                Ok(Step { effects, query: Query::Continue })
            },
        }
    }

    /// Finds the position at which the root at `root` is accounted for.
    fn own_root(&self, root: usize) -> (r: Option<usize>)
        ensures
            r is Some == self.own(root) is Some,
            r matches Some(at) ==> self.own(root) == Some(at as int) && at < self.gc_roots.len(),
    {
        if root < self.gc_roots.len() {
            find_link(&self.gc_roots, &self.gc_roots[root].link_path)
        } else {
            None
        }
    }

    fn matched(&mut self, root: usize, policy: usize) -> (step: Step)
        requires
            root < old(self).gc_roots.len(),
            policy < old(self).temporary_root_policies.len(),
        ensures
            final(self).reaches(
                *old(self),
                old(self).spec_matched(old(self).progress(), root as int, policy as int),
                step,
            ),
    {
        proof {
            reveal(RunContext::spec_matched);
            reveal(RunContext::spec_offer);
            reveal(RunContext::spec_removal);
        }
        let next = Stage::Matching { root: root + 1, policy: 0 };
        let expired = self.temporary_root_policies[policy].1.expired(&self.gc_roots[root]);
        let own = self.own_root(root);
        self.statistic.monitored.increase();
        match own {
            Some(at) => {
                if expired && at < self.taken.len() && !self.taken[at] {
                    let name = self.temporary_root_policies[policy].0.clone();
                    self.statistic.expired.increase();
                    self.offer(
                        name,
                        at,
                        next,
                        Stage::ConfirmingRoot { root, policy },
                        Stage::DeletingRoot { root },
                    )
                } else {
                    self.quiet(next)
                }
            },
            None => self.quiet(next),
        }
    }

    fn matching(&mut self, root: usize, policy: usize) -> (step: Step)
        ensures
            final(self).reaches(
                *old(self),
                old(self).spec_matching(old(self).progress(), root, policy),
                step,
            ),
    {
        if root >= self.gc_roots.len() {
            return self.quiet(Stage::Profiles { policy: 0, path: 0 });
        }
        if policy >= self.temporary_root_policies.len() {
            return self.quiet(Stage::Matching { root: root + 1, policy: 0 });
        }
        match self.temporary_root_policies[policy].1.screen(&self.gc_roots[root]) {
            Screening::Ignored => self.quiet(Stage::Matching { root, policy: policy + 1 }),
            Screening::Monitored => self.matched(root, policy),
            Screening::Filter => {
                let input = Input {
                    path: self.gc_roots[root].path.clone(),
                    gc_root: self.gc_roots[root].link_path.clone(),
                };
                self.stage = Stage::Filtering { root, policy };
                Step { effects: Vec::new(), query: Query::Filter { policy, input } }
            },
        }
    }

    fn filtered(&mut self, root: usize, policy: usize, outcome: FilterOutcome) -> (r: Result<
        Step,
        RunError,
    >)
        ensures
            final(self).answers(
                *old(self),
                old(self).spec_filtered(old(self).progress(), root, policy, outcome),
                r,
            ),
    {
        if root >= self.gc_roots.len() || policy >= self.temporary_root_policies.len() {
            return Err(RunError::UnexpectedEvent);
        }
        let verdict = match outcome {
            FilterOutcome::SpawnFailed => Err(crate::error::FilterError::Spawn),
            FilterOutcome::StdinMissing => Err(crate::error::FilterError::Stdin),
            FilterOutcome::WriteFailed => Err(crate::error::FilterError::Write),
            FilterOutcome::WaitFailed => Err(crate::error::FilterError::Wait),
            FilterOutcome::Exited { success } => Ok(success),
        };
        match verdict {
            Err(e) => Err(RunError::Filter(e)),
            Ok(false) => Ok(self.quiet(Stage::Matching { root, policy: policy + 1 })),
            Ok(true) => Ok(self.matched(root, policy)),
        }
    }

    fn root_answered(&mut self, root: usize, policy: usize, answer: Option<bool>) -> (r: Result<
        Step,
        RunError,
    >)
        ensures
            final(self).answers(
                *old(self),
                old(self).spec_root_answered(old(self).progress(), root, policy, answer),
                r,
            ),
    {
        let at = match self.own_root(root) {
            Some(at) => at,
            None => {
                return Err(RunError::UnexpectedEvent);
            },
        };
        if policy >= self.temporary_root_policies.len() {
            return Err(RunError::UnexpectedEvent);
        }
        let name = self.temporary_root_policies[policy].0.clone();
        self.answer(
            name,
            at,
            answer,
            Stage::Matching { root: root + 1, policy: 0 },
            Stage::DeletingRoot { root },
        )
    }

    fn root_deleted(&mut self, root: usize, event: Event) -> (r: Result<Step, RunError>)
        ensures
            final(self).answers(
                *old(self),
                old(self).spec_root_deleted(old(self).progress(), root, event),
                r,
            ),
    {
        let at = match self.own_root(root) {
            Some(at) => at,
            None => {
                return Err(RunError::UnexpectedEvent);
            },
        };
        self.settle(at, event, Stage::Matching { root: root + 1, policy: 0 })
    }

    fn profiles(&mut self, policy: usize, path: usize) -> (step: Step)
        ensures
            final(self).reaches(
                *old(self),
                old(self).spec_profiles(old(self).progress(), policy, path),
                step,
            ),
    {
        if policy >= self.profile_policies.len() {
            if self.waiting.len() > 0 {
                self.stage = Stage::ConfirmingAll;
                return Step { effects: Vec::new(), query: Query::Confirm };
            }
            return self.close();
        }
        if path >= self.profile_policies[policy].1.config.profile_paths.len() {
            return self.quiet(Stage::Profiles { policy: policy + 1, path: 0 });
        }
        let profile_path = self.profile_policies[policy].1.config.profile_paths[path].clone();
        self.stage = Stage::ReadingProfile { policy, path };
        Step { effects: Vec::new(), query: Query::Profile { path: profile_path } }
    }

    /// Builds the profile at the path at hand from what was observed of it.
    pub fn filter_and_read_profile(&self, path: &str, probe: &ProfileProbe) -> (r: Result<
        Option<crate::profile::Profile>,
        RunError,
    >)
        ensures
            profile_skipped(probe.metadata, self.owned_only, self.uid) ==> r matches Ok(None),
            !profile_skipped(probe.metadata, self.owned_only, self.uid) ==> match profile_failure(
                path@,
                *probe,
                self.gc_roots@,
            ) {
                Some(e) => r matches Err(failure) && failure == e,
                None => r matches Ok(Some(profile)) && profile.wf() && profile.path@ == path@
                    && StatOutcome::Found(profile.path_metadata) == probe.metadata
                    && profile.current_generation@ == probe.current_generation->0@
                    && profile.generations@ == profile_generations(path@, *probe, self.gc_roots@),
            },
    {
        read_profile(path, probe, &self.gc_roots, self.owned_only, self.uid)
    }

    fn profile_read(&mut self, policy: usize, path: usize, probe: ProfileProbe) -> (r: Result<
        Step,
        RunError,
    >)
        ensures
            final(self).answers(
                *old(self),
                old(self).spec_profile_read(old(self).progress(), policy, path, probe),
                r,
            ),
    {
        if policy >= self.profile_policies.len() {
            return Err(RunError::UnexpectedEvent);
        }
        if path >= self.profile_policies[policy].1.config.profile_paths.len() {
            return Err(RunError::UnexpectedEvent);
        }
        let profile_path = self.profile_policies[policy].1.config.profile_paths[path].clone();
        let profile = match self.filter_and_read_profile(profile_path.as_str(), &probe) {
            Err(e) => {
                return Err(e);
            },
            Ok(None) => {
                return Ok(self.quiet(Stage::Profiles { policy, path: path + 1 }));
            },
            Ok(Some(profile)) => profile,
        };
        let keep = match self.profile_policies[policy].1.run(&profile, &self.current) {
            Ok(keep) => keep,
            Err(e) => {
                return Err(e);
            },
        };
        let roots = unkept(&profile.generations, &keep);
        proof {
            lemma_unmarked_are_unkept(
                self.profile_policies@[policy as int].1.config,
                profile.generations@,
                profile.current_generation@,
                self.current,
                keep@,
                profile.generations@.len(),
            );
        }
        let candidates = positions(&self.gc_roots, &roots);
        self.statistic.monitored.add(profile.generations.len());
        self.candidates = candidates;
        Ok(self.quiet(Stage::Judging { policy, path, next: 0 }))
    }

    fn judging(&mut self, policy: usize, path: usize, next: usize) -> (r: Result<Step, RunError>)
        ensures
            final(self).answers(
                *old(self),
                old(self).spec_judging(old(self).progress(), policy, path, next),
                r,
            ),
    {
        if policy >= self.profile_policies.len() || path == usize::MAX {
            return Err(RunError::UnexpectedEvent);
        }
        if next >= self.candidates.len() {
            return Ok(self.quiet(Stage::Profiles { policy, path: path + 1 }));
        }
        let at = self.candidates[next];
        if !(at < self.gc_roots.len() && at < self.taken.len() && !self.taken[at]) {
            return Ok(self.quiet(Stage::Judging { policy, path, next: next + 1 }));
        }
        let name = self.profile_policies[policy].0.clone();
        self.statistic.expired.increase();
        proof {
            reveal(RunContext::spec_offer);
            reveal(RunContext::spec_removal);
        }
        Ok(
            self.offer(
                name,
                at,
                Stage::Judging { policy, path, next: next + 1 },
                Stage::ConfirmingGeneration { policy, path, next },
                Stage::DeletingGeneration { policy, path, next },
            ),
        )
    }

    fn generation_answered(
        &mut self,
        policy: usize,
        path: usize,
        next: usize,
        answer: Option<bool>,
    ) -> (r: Result<Step, RunError>)
        ensures
            final(self).answers(
                *old(self),
                old(self).spec_generation_answered(
                    old(self).progress(),
                    policy,
                    path,
                    next,
                    answer,
                ),
                r,
            ),
    {
        if policy >= self.profile_policies.len() || next >= self.candidates.len() {
            return Err(RunError::UnexpectedEvent);
        }
        let at = self.candidates[next];
        if at >= self.gc_roots.len() {
            return Err(RunError::UnexpectedEvent);
        }
        let name = self.profile_policies[policy].0.clone();
        self.answer(
            name,
            at,
            answer,
            Stage::Judging { policy, path, next: next + 1 },
            Stage::DeletingGeneration { policy, path, next },
        )
    }

    fn generation_deleted(&mut self, policy: usize, path: usize, next: usize, event: Event) -> (r:
        Result<Step, RunError>)
        ensures
            final(self).answers(
                *old(self),
                old(self).spec_generation_deleted(old(self).progress(), policy, path, next, event),
                r,
            ),
    {
        if next >= self.candidates.len() {
            return Err(RunError::UnexpectedEvent);
        }
        let at = self.candidates[next];
        if at >= self.gc_roots.len() {
            return Err(RunError::UnexpectedEvent);
        }
        self.settle(at, event, Stage::Judging { policy, path, next: next + 1 })
    }

    fn all_answered(&mut self, answer: Option<bool>) -> (r: Result<Step, RunError>)
        ensures
            final(self).answers(
                *old(self),
                old(self).spec_all_answered(old(self).progress(), answer),
                r,
            ),
    {
        match answer {
            None => Err(RunError::Prompt),
            Some(true) => Ok(self.quiet(Stage::Removing { next: 0 })),
            Some(false) => Ok(self.close()),
        }
    }

    fn removing(&mut self, next: usize) -> (r: Result<Step, RunError>)
        ensures
            final(self).answers(
                *old(self),
                old(self).spec_removing(old(self).progress(), next),
                r,
            ),
    {
        if next >= self.waiting.len() {
            return Ok(self.close());
        }
        let at = self.waiting[next].1;
        if at >= self.gc_roots.len() {
            return Err(RunError::UnexpectedEvent);
        }
        let name = self.waiting[next].0.clone();
        Ok(self.remove(name, at, Stage::DeletingWaiting { next }))
    }

    fn waiting_deleted(&mut self, next: usize, event: Event) -> (r: Result<Step, RunError>)
        ensures
            final(self).answers(
                *old(self),
                old(self).spec_waiting_deleted(old(self).progress(), next, event),
                r,
            ),
    {
        if next >= self.waiting.len() {
            return Err(RunError::UnexpectedEvent);
        }
        let at = self.waiting[next].1;
        if at >= self.gc_roots.len() {
            return Err(RunError::UnexpectedEvent);
        }
        self.settle(at, event, Stage::Removing { next: next + 1 })
    }

    /// Takes one step of the run. `event` answers what the step before asked
    /// for; the first step is handed `Event::Continue`. The step says what
    /// the caller is to do, in order, and what it is to hand to the next
    /// step. The run is over when the step asks for nothing more. A step
    /// that fails leaves the run as it was, and a step that succeeds keeps
    /// the account of the run in order.
    pub fn run(&mut self, event: Event) -> (r: Result<Step, RunError>)
        ensures
            final(self).answers(*old(self), old(self).spec_run(event), r),
            r is Err ==> *final(self) == *old(self),
            old(self).wf() && r is Ok ==> final(self).wf(),
    {
        proof {
            reveal(RunContext::spec_step);
            lemma_step_keeps_account(*old(self), old(self).progress(), event);
        }
        match (self.stage, event) {
            (Stage::Matching { root, policy }, Event::Continue) => Ok(self.matching(root, policy)),
            (Stage::Filtering { root, policy }, Event::Filter(outcome)) => self.filtered(
                root,
                policy,
                outcome,
            ),
            (Stage::ConfirmingRoot { root, policy }, Event::Answer(answer)) => self.root_answered(
                root,
                policy,
                answer,
            ),
            (Stage::DeletingRoot { root }, event) => self.root_deleted(root, event),
            (Stage::Profiles { policy, path }, Event::Continue) => Ok(self.profiles(policy, path)),
            (Stage::ReadingProfile { policy, path }, Event::Profile(probe)) => self.profile_read(
                policy,
                path,
                probe,
            ),
            (Stage::Judging { policy, path, next }, Event::Continue) => self.judging(
                policy,
                path,
                next,
            ),
            (
                Stage::ConfirmingGeneration { policy, path, next },
                Event::Answer(answer),
            ) => self.generation_answered(policy, path, next, answer),
            (Stage::DeletingGeneration { policy, path, next }, event) => self.generation_deleted(
                policy,
                path,
                next,
                event,
            ),
            (Stage::ConfirmingAll, Event::Answer(answer)) => self.all_answered(answer),
            (Stage::Removing { next }, Event::Continue) => self.removing(next),
            (Stage::DeletingWaiting { next }, event) => self.waiting_deleted(next, event),
            (Stage::Finished, _) => Ok(Step { effects: Vec::new(), query: Query::Done }),
            _ => Err(RunError::UnexpectedEvent),
        }
    }

    /// Ends the run: the figures to tell the operator, unless the options
    /// ask for none.
    pub fn finish(self) -> (r: Option<Summary>)
        requires
            self.statistic.removed.spec_get() <= self.statistic.traversed.spec_get(),
        ensures
            r == if self.options.no_statistic {
                None
            } else {
                Some(self.statistic.spec_summary(self.options.dry_run))
            },
    {
        if self.options.no_statistic {
            None
        } else {
            let dry_run = self.options.dry_run;
            Some(self.statistic.summary(dry_run))
        }
    }
}

/// Whether the step at hand asks a temporary-root policy about a root:
/// the run is about to ask the policy at `policy` about the root at `root`,
/// or waits for the filter of that policy.
pub open spec fn asking(stage: Stage, root: usize, policy: usize) -> bool {
    stage == (Stage::Matching { root, policy }) || stage == (Stage::Filtering { root, policy })
}

/// A root that is no older than the period of a policy is not removed on
/// account of that policy, however the run asks: the step that asks the
/// policy about the root, and the step that takes the end of its filter,
/// have nothing done, offer nothing, let nothing wait and count no removal.
pub proof fn lemma_unexpired_root_is_left_alone(
    context: RunContext,
    event: Event,
    root: usize,
    policy: usize,
)
    requires
        asking(context.stage, root, policy),
        root < context.gc_roots@.len(),
        policy < context.temporary_root_policies@.len(),
        context.temporary_root_policies@[policy as int].1.config.period matches Some(period)
            && context.gc_roots@[root as int].age.nanos <= period.nanos,
    ensures
        context.spec_run(event) matches Ok(outcome) ==> outcome.effects.len() == 0
            && outcome.progress.waiting == context.waiting@ && outcome.progress.taken
            == context.taken@ && outcome.progress.removed == context.progress().removed
            && outcome.progress.expired == context.progress().expired && !(outcome.query
            is Delete),
{
    reveal(RunContext::spec_step);
    reveal(RunContext::spec_matched);
}

/// A filter that ends with a status other than zero hands the root to the
/// next policy in order: nothing is done, nothing is counted, and the run
/// goes on to ask the policy behind the one whose filter refused.
pub proof fn lemma_refused_root_goes_to_next_policy(
    context: RunContext,
    root: usize,
    policy: usize,
)
    requires
        context.stage == (Stage::Filtering { root, policy }),
        root < context.gc_roots@.len(),
        policy < context.temporary_root_policies@.len(),
    ensures
        context.spec_run(Event::Filter(FilterOutcome::Exited { success: false })) == Ok::<
            Outcome,
            RunError,
        >(context.progress().quietly(Stage::Matching { root, policy: (policy + 1) as usize })),
{
    reveal(RunContext::spec_step);
}

/// A root that no policy monitors is left untouched: when every policy has
/// been asked, the run turns to the next root and has nothing done.
pub proof fn lemma_unmatched_root_is_left_alone(context: RunContext, root: usize, policy: usize)
    requires
        context.stage == (Stage::Matching { root, policy }),
        root < context.gc_roots@.len(),
        policy >= context.temporary_root_policies@.len(),
    ensures
        context.spec_run(Event::Continue) == Ok::<Outcome, RunError>(
            context.progress().quietly(Stage::Matching { root: (root + 1) as usize, policy: 0 }),
        ),
{
    reveal(RunContext::spec_step);
}

/// A deletion that failed ends the run: the step that takes the news fails
/// and names the root whose file could not be deleted. The removal was not
/// counted and the path was not written when the deletion was asked for,
/// and a step that fails leaves the run as it was.
pub proof fn lemma_failed_deletion_ends_the_run(
    context: RunContext,
    base: Progress,
    root: usize,
    policy: usize,
    path: usize,
    next: usize,
)
    requires
        !context.options.dry_run,
    ensures
        base.stage == (Stage::DeletingRoot { root }) && context.own(root) is Some
            ==> context.spec_step(base, Event::Deleted(false)) == Err::<Outcome, RunError>(
            RunError::Remove { root: context.own(root)->0 as usize },
        ),
        base.stage == (Stage::DeletingGeneration { policy, path, next }) && next
            < base.candidates.len() && base.candidates[next as int] < context.gc_roots@.len()
            ==> context.spec_step(base, Event::Deleted(false)) == Err::<Outcome, RunError>(
            RunError::Remove { root: base.candidates[next as int] },
        ),
        base.stage == (Stage::DeletingWaiting { next }) && next < base.waiting.len()
            && base.waiting[next as int].1 < context.gc_roots@.len() ==> context.spec_step(
            base,
            Event::Deleted(false),
        ) == Err::<Outcome, RunError>(RunError::Remove { root: base.waiting[next as int].1 }),
        forall|name: String, at: int, deleting: Stage|
            (#[trigger] context.spec_removal(base, name, at, deleting)).progress == base.at(
                deleting,
            ),
{
    reveal(RunContext::spec_step);
    reveal(RunContext::spec_deleted);
    reveal(RunContext::spec_removal);
}

/// Whether the deletion that `outcome` asks for, if it asks for one, is
/// accounted for: the run is no rehearsal, and the last thing done before is
/// to tell the operator of the removal of the same path, under the name of
/// a policy.
pub open spec fn deletion_attributed(context: RunContext, outcome: Outcome) -> bool {
    outcome.query matches Query::Delete { path } ==> {
        &&& !context.options.dry_run
        &&& outcome.effects.len() > 0
        &&& outcome.effects.last() matches Effect::Notify(notice)
        &&& notice.action == Action::Remove
        &&& !notice.dry_run
        &&& notice.path == path
    }
}

proof fn lemma_removal_attributed(
    context: RunContext,
    base: Progress,
    name: String,
    at: int,
    deleting: Stage,
)
    ensures
        deletion_attributed(context, context.spec_removal(base, name, at, deleting)),
{
    reveal(RunContext::spec_removal);
}

proof fn lemma_offer_attributed(
    context: RunContext,
    base: Progress,
    name: String,
    at: int,
    then: Stage,
    confirming: Stage,
    deleting: Stage,
)
    ensures
        deletion_attributed(
            context,
            context.spec_offer(base, name, at, then, confirming, deleting),
        ),
{
    reveal(RunContext::spec_offer);
    lemma_removal_attributed(
        context,
        Progress { taken: base.taken.update(at, true), ..base },
        name,
        at,
        deleting,
    );
}

proof fn lemma_answer_attributed(
    context: RunContext,
    base: Progress,
    name: String,
    at: int,
    answer: Option<bool>,
    then: Stage,
    deleting: Stage,
)
    ensures
        context.spec_answer(base, name, at, answer, then, deleting) matches Ok(outcome)
            ==> deletion_attributed(context, outcome),
{
    reveal(RunContext::spec_answer);
    lemma_removal_attributed(context, base, name, at, deleting);
}

proof fn lemma_deleted_attributed(
    context: RunContext,
    base: Progress,
    at: int,
    event: Event,
    then: Stage,
)
    ensures
        context.spec_deleted(base, at, event, then) matches Ok(outcome) ==> deletion_attributed(
            context,
            outcome,
        ),
{
    reveal(RunContext::spec_deleted);
}

proof fn lemma_matched_attributed(context: RunContext, base: Progress, root: int, policy: int)
    ensures
        deletion_attributed(context, context.spec_matched(base, root, policy)),
{
    reveal(RunContext::spec_matched);
    let entry = context.temporary_root_policies@[policy];
    let monitored = Progress { monitored: wrapped_sum(base.monitored, 1), ..base };
    let own = root_of_link(context.gc_roots@, context.gc_roots@[root].link_path@);
    if own is Some {
        lemma_offer_attributed(
            context,
            Progress { expired: wrapped_sum(monitored.expired, 1), ..monitored },
            entry.0,
            own->0,
            Stage::Matching { root: (root + 1) as usize, policy: 0 },
            Stage::ConfirmingRoot { root: root as usize, policy: policy as usize },
            Stage::DeletingRoot { root: root as usize },
        );
    }
}

/// No file is deleted without account: whatever step the run takes, a
/// rehearsal asks for no deletion, and a real run asks for the deletion of
/// a file only right after it has told the operator of the removal of that
/// file under the name of the policy that asked for it.
pub proof fn lemma_deletions_are_attributed(context: RunContext, base: Progress, event: Event)
    ensures
        context.spec_step(base, event) matches Ok(outcome) ==> deletion_attributed(
            context,
            outcome,
        ),
{
    reveal(RunContext::spec_step);
    match (base.stage, event) {
        (Stage::Matching { root, policy }, Event::Continue) => {
            lemma_matched_attributed(context, base, root as int, policy as int);
        },
        (Stage::Filtering { root, policy }, Event::Filter(outcome)) => {
            lemma_matched_attributed(context, base, root as int, policy as int);
        },
        (Stage::ConfirmingRoot { root, policy }, Event::Answer(answer)) => {
            if context.own(root) is Some {
                lemma_answer_attributed(
                    context,
                    base,
                    context.temporary_root_policies@[policy as int].0,
                    context.own(root)->0,
                    answer,
                    Stage::Matching { root: (root + 1) as usize, policy: 0 },
                    Stage::DeletingRoot { root },
                );
            }
        },
        (Stage::DeletingRoot { root }, event) => {
            if context.own(root) is Some {
                lemma_deleted_attributed(
                    context,
                    base,
                    context.own(root)->0,
                    event,
                    Stage::Matching { root: (root + 1) as usize, policy: 0 },
                );
            }
        },
        (Stage::Judging { policy, path, next }, Event::Continue) => {
            lemma_offer_attributed(
                context,
                Progress { expired: wrapped_sum(base.expired, 1), ..base },
                context.profile_policies@[policy as int].0,
                base.candidates[next as int] as int,
                Stage::Judging { policy, path, next: (next + 1) as usize },
                Stage::ConfirmingGeneration { policy, path, next },
                Stage::DeletingGeneration { policy, path, next },
            );
        },
        (Stage::ConfirmingGeneration { policy, path, next }, Event::Answer(answer)) => {
            lemma_answer_attributed(
                context,
                base,
                context.profile_policies@[policy as int].0,
                base.candidates[next as int] as int,
                answer,
                Stage::Judging { policy, path, next: (next + 1) as usize },
                Stage::DeletingGeneration { policy, path, next },
            );
        },
        (Stage::DeletingGeneration { policy, path, next }, event) => {
            lemma_deleted_attributed(
                context,
                base,
                base.candidates[next as int] as int,
                event,
                Stage::Judging { policy, path, next: (next + 1) as usize },
            );
        },
        (Stage::Removing { next }, Event::Continue) => {
            lemma_removal_attributed(
                context,
                base,
                base.waiting[next as int].0,
                base.waiting[next as int].1 as int,
                Stage::DeletingWaiting { next },
            );
        },
        (Stage::DeletingWaiting { next }, event) => {
            lemma_deleted_attributed(
                context,
                base,
                base.waiting[next as int].1 as int,
                event,
                Stage::Removing { next: (next + 1) as usize },
            );
        },
        _ => {},
    }
}

/// Whether a step that leads from the marks `before` to the marks `after`
/// offers the root at `at`: the root was not offered before, and is now.
pub open spec fn offered(before: Seq<bool>, after: Seq<bool>, at: int) -> bool {
    0 <= at < before.len() && !before[at] && after == before.update(at, true)
}

/// Whether a step that leads from the marks `before` to the marks `after`
/// offers one root that was not offered before, or none at all.
pub open spec fn offers_at_most_one(before: Seq<bool>, after: Seq<bool>) -> bool {
    after == before || exists|at: int| offered(before, after, at)
}

/// Whether `stage` is one at which nothing is owed to a candidate beyond
/// what waits.
pub open spec fn plain(stage: Stage) -> bool {
    stage is Matching || stage is Judging
}

/// Whether `stage` is one at which a candidate is being asked about.
pub open spec fn confirms(stage: Stage) -> bool {
    stage is ConfirmingRoot || stage is ConfirmingGeneration
}

/// Whether `stage` is one at which a candidate that did not wait is being
/// deleted.
pub open spec fn deletes(stage: Stage) -> bool {
    stage is DeletingRoot || stage is DeletingGeneration
}

proof fn lemma_offer_keeps_account(
    context: RunContext,
    base: Progress,
    name: String,
    at: int,
    then: Stage,
    confirming: Stage,
    deleting: Stage,
)
    requires
        context.open_to_offer(base, at),
        base.taken.len() == context.gc_roots@.len(),
        context.gc_roots@.len() <= base.traversed,
        base.removed + base.waiting.len() <= count_taken(base.taken),
        plain(then),
        confirms(confirming),
        deletes(deleting),
    ensures
        context.accounted(context.spec_offer(base, name, at, then, confirming, deleting).progress),
        offered(
            base.taken,
            context.spec_offer(base, name, at, then, confirming, deleting).progress.taken,
            at,
        ),
{
    reveal(RunContext::spec_offer);
    reveal(RunContext::spec_removal);
    lemma_count_taken_update(base.taken, at);
}

proof fn lemma_begun_removal_keeps_account(
    context: RunContext,
    base: Progress,
    name: String,
    at: int,
    deleting: Stage,
)
    requires
        context.accounted(base.at(deleting)),
    ensures
        context.accounted(context.spec_removal(base, name, at, deleting).progress),
        context.spec_removal(base, name, at, deleting).progress.taken == base.taken,
{
    reveal(RunContext::spec_removal);
}

proof fn lemma_answer_keeps_account(
    context: RunContext,
    base: Progress,
    name: String,
    at: int,
    answer: Option<bool>,
    then: Stage,
    deleting: Stage,
)
    requires
        context.accounted(base),
        confirms(base.stage),
        plain(then),
        deletes(deleting),
    ensures
        context.spec_answer(base, name, at, answer, then, deleting) matches Ok(outcome)
            ==> context.accounted(outcome.progress) && outcome.progress.taken == base.taken,
{
    reveal(RunContext::spec_answer);
    reveal(RunContext::spec_removal);
}

proof fn lemma_deleted_keeps_account(
    context: RunContext,
    base: Progress,
    at: int,
    event: Event,
    then: Stage,
)
    requires
        context.accounted(base),
        (deletes(base.stage) && plain(then)) || (base.stage matches Stage::DeletingWaiting {
            next,
        } && then == (Stage::Removing { next: (next + 1) as usize })),
    ensures
        context.spec_deleted(base, at, event, then) matches Ok(outcome) ==> context.accounted(
            outcome.progress,
        ) && outcome.progress.taken == base.taken,
{
    reveal(RunContext::spec_deleted);
    lemma_count_taken_bound(base.taken);
}

proof fn lemma_matched_keeps_account(context: RunContext, base: Progress, root: int, policy: int)
    requires
        context.accounted(base),
        base.stage is Matching || base.stage is Filtering,
    ensures
        context.accounted(context.spec_matched(base, root, policy).progress),
        offers_at_most_one(base.taken, context.spec_matched(base, root, policy).progress.taken),
{
    reveal(RunContext::spec_matched);
    let entry = context.temporary_root_policies@[policy];
    let item = context.gc_roots@[root];
    let monitored = Progress { monitored: wrapped_sum(base.monitored, 1), ..base };
    let own = root_of_link(context.gc_roots@, item.link_path@);
    if entry.1.spec_expired(item) && own is Some && context.open_to_offer(base, own->0) {
        lemma_offer_keeps_account(
            context,
            Progress { expired: wrapped_sum(monitored.expired, 1), ..monitored },
            entry.0,
            own->0,
            Stage::Matching { root: (root + 1) as usize, policy: 0 },
            Stage::ConfirmingRoot { root: root as usize, policy: policy as usize },
            Stage::DeletingRoot { root: root as usize },
        );
    }
}

/// A step keeps the account of the run in order, and offers one root that
/// was not offered before, or none: a step never offers a root twice, and
/// never takes back that a root was offered.
pub proof fn lemma_step_keeps_account(context: RunContext, base: Progress, event: Event)
    ensures
        context.accounted(base) ==> (context.spec_step(base, event) matches Ok(outcome)
            ==> context.accounted(outcome.progress) && offers_at_most_one(
            base.taken,
            outcome.progress.taken,
        )),
{
    reveal(RunContext::spec_step);
    if context.accounted(base) {
        match (base.stage, event) {
            (Stage::Matching { root, policy }, Event::Continue) => {
                lemma_matched_keeps_account(context, base, root as int, policy as int);
            },
            (Stage::Filtering { root, policy }, Event::Filter(outcome)) => {
                lemma_matched_keeps_account(context, base, root as int, policy as int);
            },
            (Stage::ConfirmingRoot { root, policy }, Event::Answer(answer)) => {
                if context.own(root) is Some {
                    lemma_answer_keeps_account(
                        context,
                        base,
                        context.temporary_root_policies@[policy as int].0,
                        context.own(root)->0,
                        answer,
                        Stage::Matching { root: (root + 1) as usize, policy: 0 },
                        Stage::DeletingRoot { root },
                    );
                }
            },
            (Stage::DeletingRoot { root }, event) => {
                if context.own(root) is Some {
                    lemma_deleted_keeps_account(
                        context,
                        base,
                        context.own(root)->0,
                        event,
                        Stage::Matching { root: (root + 1) as usize, policy: 0 },
                    );
                }
            },
            (Stage::Judging { policy, path, next }, Event::Continue) => {
                if next < base.candidates.len() && context.open_to_offer(
                    base,
                    base.candidates[next as int] as int,
                ) {
                    lemma_offer_keeps_account(
                        context,
                        Progress { expired: wrapped_sum(base.expired, 1), ..base },
                        context.profile_policies@[policy as int].0,
                        base.candidates[next as int] as int,
                        Stage::Judging { policy, path, next: (next + 1) as usize },
                        Stage::ConfirmingGeneration { policy, path, next },
                        Stage::DeletingGeneration { policy, path, next },
                    );
                }
            },
            (Stage::ConfirmingGeneration { policy, path, next }, Event::Answer(answer)) => {
                lemma_answer_keeps_account(
                    context,
                    base,
                    context.profile_policies@[policy as int].0,
                    base.candidates[next as int] as int,
                    answer,
                    Stage::Judging { policy, path, next: (next + 1) as usize },
                    Stage::DeletingGeneration { policy, path, next },
                );
            },
            (Stage::DeletingGeneration { policy, path, next }, event) => {
                lemma_deleted_keeps_account(
                    context,
                    base,
                    base.candidates[next as int] as int,
                    event,
                    Stage::Judging { policy, path, next: (next + 1) as usize },
                );
            },
            (Stage::Removing { next }, Event::Continue) => {
                if next < base.waiting.len() {
                    lemma_begun_removal_keeps_account(
                        context,
                        base,
                        base.waiting[next as int].0,
                        base.waiting[next as int].1 as int,
                        Stage::DeletingWaiting { next },
                    );
                }
            },
            (Stage::DeletingWaiting { next }, event) => {
                lemma_deleted_keeps_account(
                    context,
                    base,
                    base.waiting[next as int].1 as int,
                    event,
                    Stage::Removing { next: (next + 1) as usize },
                );
            },
            _ => {},
        }
    }
}

/// Whether `effects` announce a candidate: the operator is told of a root
/// that is about to be removed.
pub open spec fn announces(effects: Seq<Effect>) -> bool {
    exists|i: int| 0 <= i < effects.len() && is_announcement(#[trigger] effects[i])
}

/// Whether `effect` tells the operator that a root is about to be removed.
pub open spec fn is_announcement(effect: Effect) -> bool {
    match effect {
        Effect::Notify(notice) => notice.action == Action::AboutToRemove,
        _ => false,
    }
}

/// Whether `outcome` tells the operator first of all of the root at `at`:
/// of its removal in a run that never asks, and else that it is about to be
/// removed.
pub open spec fn tells_of(context: RunContext, outcome: Outcome, at: int) -> bool {
    &&& outcome.effects.len() > 0
    &&& outcome.effects[0] matches Effect::Notify(notice)
    &&& notice.path == context.spec_path_to_remove(context.gc_roots@[at])
    &&& notice.age == context.gc_roots@[at].age
    &&& notice.action == if context.options.interactive == Interactive::Never {
        Action::Remove
    } else {
        Action::AboutToRemove
    }
}

/// Whether what `outcome` tells agrees with the roots that the step offers,
/// which leads from the marks `before` to those of `outcome`: the operator
/// is told first of all of the root that the step offers, and no candidate
/// is announced by a step that offers none.
pub open spec fn offer_announced(context: RunContext, before: Seq<bool>, outcome: Outcome) -> bool {
    &&& forall|at: int|
        offered(before, outcome.progress.taken, at) ==> tells_of(context, outcome, at)
    &&& outcome.progress.taken == before ==> !announces(outcome.effects)
}

proof fn lemma_nothing_announced(context: RunContext, before: Seq<bool>, outcome: Outcome)
    requires
        outcome.progress.taken == before,
        forall|i: int|
            0 <= i < outcome.effects.len() ==> !is_announcement(#[trigger] outcome.effects[i]),
    ensures
        offer_announced(context, before, outcome),
{
    assert forall|at: int| offered(before, outcome.progress.taken, at) implies tells_of(
        context,
        outcome,
        at,
    ) by {
        assert(before.update(at, true)[at]);
    }
}

proof fn lemma_removal_announces_nothing(
    context: RunContext,
    base: Progress,
    name: String,
    at: int,
    deleting: Stage,
)
    ensures
        offer_announced(context, base.taken, context.spec_removal(base, name, at, deleting)),
{
    reveal(RunContext::spec_removal);
    lemma_nothing_announced(context, base.taken, context.spec_removal(base, name, at, deleting));
}

proof fn lemma_deleted_announces_nothing(
    context: RunContext,
    base: Progress,
    at: int,
    event: Event,
    then: Stage,
)
    ensures
        context.spec_deleted(base, at, event, then) matches Ok(outcome) ==> offer_announced(
            context,
            base.taken,
            outcome,
        ),
{
    reveal(RunContext::spec_deleted);
    if context.spec_deleted(base, at, event, then) is Ok {
        lemma_nothing_announced(
            context,
            base.taken,
            context.spec_deleted(base, at, event, then)->Ok_0,
        );
    }
}

proof fn lemma_answer_announces_nothing(
    context: RunContext,
    base: Progress,
    name: String,
    at: int,
    answer: Option<bool>,
    then: Stage,
    deleting: Stage,
)
    ensures
        context.spec_answer(base, name, at, answer, then, deleting) matches Ok(outcome)
            ==> offer_announced(context, base.taken, outcome),
{
    reveal(RunContext::spec_answer);
    reveal(RunContext::spec_removal);
    if context.spec_answer(base, name, at, answer, then, deleting) is Ok {
        lemma_nothing_announced(
            context,
            base.taken,
            context.spec_answer(base, name, at, answer, then, deleting)->Ok_0,
        );
    }
}

proof fn lemma_offer_is_announced(
    context: RunContext,
    base: Progress,
    name: String,
    at: int,
    then: Stage,
    confirming: Stage,
    deleting: Stage,
)
    requires
        context.open_to_offer(base, at),
    ensures
        offer_announced(
            context,
            base.taken,
            context.spec_offer(base, name, at, then, confirming, deleting),
        ),
{
    reveal(RunContext::spec_offer);
    reveal(RunContext::spec_removal);
    let outcome = context.spec_offer(base, name, at, then, confirming, deleting);
    assert(outcome.progress.taken == base.taken.update(at, true));
    assert(outcome.progress.taken[at]);
    assert forall|other: int| offered(base.taken, outcome.progress.taken, other) implies tells_of(
        context,
        outcome,
        other,
    ) by {
        assert(base.taken.update(other, true)[other]);
        if other != at {
            assert(base.taken.update(at, true)[other] == base.taken[other]);
        }
    }
}

proof fn lemma_matched_is_announced(context: RunContext, base: Progress, root: int, policy: int)
    ensures
        offer_announced(context, base.taken, context.spec_matched(base, root, policy)),
{
    reveal(RunContext::spec_matched);
    let entry = context.temporary_root_policies@[policy];
    let item = context.gc_roots@[root];
    let monitored = Progress { monitored: wrapped_sum(base.monitored, 1), ..base };
    let own = root_of_link(context.gc_roots@, item.link_path@);
    if entry.1.spec_expired(item) && own is Some && context.open_to_offer(base, own->0) {
        lemma_offer_is_announced(
            context,
            Progress { expired: wrapped_sum(monitored.expired, 1), ..monitored },
            entry.0,
            own->0,
            Stage::Matching { root: (root + 1) as usize, policy: 0 },
            Stage::ConfirmingRoot { root: root as usize, policy: policy as usize },
            Stage::DeletingRoot { root: root as usize },
        );
    } else {
        lemma_nothing_announced(context, base.taken, context.spec_matched(base, root, policy));
    }
}

/// What a step tells agrees with what it offers: a step that offers a root
/// tells the operator first of all of that root, and a step that offers
/// none announces no candidate. With `lemma_each_root_is_offered_once`, no
/// root is announced as a candidate twice.
pub proof fn lemma_offers_are_announced(context: RunContext, base: Progress, event: Event)
    ensures
        context.spec_step(base, event) matches Ok(outcome) ==> offer_announced(
            context,
            base.taken,
            outcome,
        ),
{
    reveal(RunContext::spec_step);
    if context.spec_step(base, event) is Ok {
        let outcome = context.spec_step(base, event)->Ok_0;
        match (base.stage, event) {
            (Stage::Matching { root, policy }, Event::Continue) => {
                lemma_matched_is_announced(context, base, root as int, policy as int);
                if outcome != context.spec_matched(base, root as int, policy as int) {
                    lemma_nothing_announced(context, base.taken, outcome);
                }
            },
            (Stage::Filtering { root, policy }, Event::Filter(verdict)) => {
                lemma_matched_is_announced(context, base, root as int, policy as int);
                if outcome != context.spec_matched(base, root as int, policy as int) {
                    lemma_nothing_announced(context, base.taken, outcome);
                }
            },
            (Stage::ConfirmingRoot { root, policy }, Event::Answer(answer)) => {
                lemma_answer_announces_nothing(
                    context,
                    base,
                    context.temporary_root_policies@[policy as int].0,
                    context.own(root)->0,
                    answer,
                    Stage::Matching { root: (root + 1) as usize, policy: 0 },
                    Stage::DeletingRoot { root },
                );
            },
            (Stage::DeletingRoot { root }, event) => {
                lemma_deleted_announces_nothing(
                    context,
                    base,
                    context.own(root)->0,
                    event,
                    Stage::Matching { root: (root + 1) as usize, policy: 0 },
                );
            },
            (Stage::Judging { policy, path, next }, Event::Continue) => {
                if next < base.candidates.len() && context.open_to_offer(
                    base,
                    base.candidates[next as int] as int,
                ) {
                    lemma_offer_is_announced(
                        context,
                        Progress { expired: wrapped_sum(base.expired, 1), ..base },
                        context.profile_policies@[policy as int].0,
                        base.candidates[next as int] as int,
                        Stage::Judging { policy, path, next: (next + 1) as usize },
                        Stage::ConfirmingGeneration { policy, path, next },
                        Stage::DeletingGeneration { policy, path, next },
                    );
                } else {
                    lemma_nothing_announced(context, base.taken, outcome);
                }
            },
            (Stage::ConfirmingGeneration { policy, path, next }, Event::Answer(answer)) => {
                lemma_answer_announces_nothing(
                    context,
                    base,
                    context.profile_policies@[policy as int].0,
                    base.candidates[next as int] as int,
                    answer,
                    Stage::Judging { policy, path, next: (next + 1) as usize },
                    Stage::DeletingGeneration { policy, path, next },
                );
            },
            (Stage::DeletingGeneration { policy, path, next }, event) => {
                lemma_deleted_announces_nothing(
                    context,
                    base,
                    base.candidates[next as int] as int,
                    event,
                    Stage::Judging { policy, path, next: (next + 1) as usize },
                );
            },
            (Stage::Removing { next }, Event::Continue) => {
                if next < base.waiting.len() {
                    lemma_removal_announces_nothing(
                        context,
                        base,
                        base.waiting[next as int].0,
                        base.waiting[next as int].1 as int,
                        Stage::DeletingWaiting { next },
                    );
                } else {
                    lemma_nothing_announced(context, base.taken, outcome);
                }
            },
            (Stage::DeletingWaiting { next }, event) => {
                lemma_deleted_announces_nothing(
                    context,
                    base,
                    base.waiting[next as int].1 as int,
                    event,
                    Stage::Removing { next: (next + 1) as usize },
                );
            },
            _ => {
                lemma_nothing_announced(context, base.taken, outcome);
            },
        }
    }
}

/// Where the account is in order, no more roots were removed than links
/// were traversed.
pub proof fn lemma_account_bounds(context: RunContext, base: Progress)
    requires
        context.accounted(base),
    ensures
        base.removed <= count_taken(base.taken) <= context.gc_roots@.len() <= base.traversed,
{
    lemma_count_taken_bound(base.taken);
}

/// The roots that a pass offers, in the order in which it offers them.
pub open spec fn pass_offers(context: RunContext, from: Progress, events: Seq<Event>) -> Seq<int>
    decreases events.len(),
{
    if events.len() == 0 {
        Seq::empty()
    } else {
        match context.spec_step(from, events[0]) {
            Err(_) => Seq::empty(),
            Ok(first) => {
                let rest = pass_offers(context, first.progress, events.drop_first());
                if exists|at: int| offered(from.taken, first.progress.taken, at) {
                    seq![choose|at: int| offered(from.taken, first.progress.taken, at)] + rest
                } else {
                    rest
                }
            },
        }
    }
}

/// One policy at most takes a root. Through a whole pass that begins with
/// the account in order, the account stays in order, so that no more roots
/// are removed than links were traversed; a root that was offered stays
/// offered; and each root that the pass offers is offered once: it was not
/// offered before the pass, it is offered after it, and it stands once among
/// the roots that the pass offers.
pub proof fn lemma_each_root_is_offered_once(
    context: RunContext,
    from: Progress,
    events: Seq<Event>,
)
    requires
        context.accounted(from),
    ensures
        context.spec_pass(from, events) matches Ok(outcome) ==> {
            let offers = pass_offers(context, from, events);
            &&& context.accounted(outcome.progress)
            &&& outcome.progress.removed <= outcome.progress.traversed
            &&& outcome.progress.taken.len() == from.taken.len()
            &&& forall|at: int|
                0 <= at < from.taken.len() && from.taken[at] ==> outcome.progress.taken[at]
            &&& forall|k: int|
                0 <= k < offers.len() ==> 0 <= (#[trigger] offers[k]) < from.taken.len()
                    && !from.taken[offers[k]] && outcome.progress.taken[offers[k]]
            &&& forall|a: int, b: int|
                0 <= a < b < offers.len() ==> (#[trigger] offers[a]) != (#[trigger] offers[b])
        },
    decreases events.len(),
{
    lemma_account_bounds(context, from);
    if events.len() > 0 {
        lemma_step_keeps_account(context, from, events[0]);
        match context.spec_step(from, events[0]) {
            Ok(first) => {
                lemma_account_bounds(context, first.progress);
                let rest_events = events.drop_first();
                let rest = pass_offers(context, first.progress, rest_events);
                let offers = pass_offers(context, from, events);
                if events.len() == 1 {
                    assert(rest_events.len() == 0);
                    assert(rest =~= Seq::<int>::empty());
                } else {
                    lemma_each_root_is_offered_once(context, first.progress, rest_events);
                }
                if context.spec_pass(from, events) is Ok {
                    let outcome = context.spec_pass(from, events)->Ok_0;
                    if events.len() == 1 {
                        assert(outcome == first);
                    }
                    assert forall|x: int|
                        0 <= x < first.progress.taken.len()
                            && first.progress.taken[x] implies outcome.progress.taken[x] by {}
                    if exists|at: int| offered(from.taken, first.progress.taken, at) {
                        let at = choose|at: int| offered(from.taken, first.progress.taken, at);
                        assert(offers =~= seq![at] + rest);
                        assert(first.progress.taken[at]);
                        assert(outcome.progress.taken[at]);
                        assert forall|k: int| 0 <= k < offers.len() implies 0 <= (
                        #[trigger] offers[k]) < from.taken.len() && !from.taken[offers[k]]
                            && outcome.progress.taken[offers[k]] by {
                            if k > 0 {
                                let x = rest[k - 1];
                                assert(offers[k] == x);
                                assert(!first.progress.taken[x]);
                                assert(from.taken[x] == first.progress.taken[x]);
                            }
                        }
                        assert forall|a: int, b: int| 0 <= a < b < offers.len() implies (
                        #[trigger] offers[a]) != (#[trigger] offers[b]) by {
                            let y = rest[b - 1];
                            assert(offers[b] == y);
                            assert(!first.progress.taken[y]);
                            if a > 0 {
                                assert(offers[a] == rest[a - 1]);
                            }
                        }
                    } else {
                        assert(offers =~= rest);
                        assert(first.progress.taken == from.taken);
                    }
                }
            },
            Err(_) => {},
        }
    }
}

/// The first policy from `from` on that monitors `root`, where `agrees` tells
/// of each policy whether its filter lets the root pass: a policy monitors
/// the root when it picks it by its path and has no filter, or has a filter
/// that agrees.
pub open spec fn first_monitoring(
    policies: Seq<(String, TemporaryRootPolicy)>,
    root: GcRoot,
    agrees: spec_fn(int) -> bool,
    from: int,
) -> Option<int>
    decreases policies.len() - from,
{
    if from < 0 || from >= policies.len() {
        None
    } else {
        match policies[from].1.spec_screen(root) {
            Screening::Monitored => Some(from),
            Screening::Filter => if agrees(from) {
                Some(from)
            } else {
                first_monitoring(policies, root, agrees, from + 1)
            },
            Screening::Ignored => first_monitoring(policies, root, agrees, from + 1),
        }
    }
}

/// What the run is handed while it looks for the policy of `root` from the
/// policy at `from` on: nothing where it asks for nothing, and the end of
/// the filter where it asks for one. The search is over with the first
/// policy that monitors the root, or when every policy has been asked.
pub open spec fn matching_events(
    policies: Seq<(String, TemporaryRootPolicy)>,
    root: GcRoot,
    agrees: spec_fn(int) -> bool,
    from: int,
) -> Seq<Event>
    decreases policies.len() - from,
{
    if from < 0 || from >= policies.len() {
        seq![Event::Continue]
    } else {
        match policies[from].1.spec_screen(root) {
            Screening::Monitored => seq![Event::Continue],
            Screening::Ignored => seq![Event::Continue] + matching_events(
                policies,
                root,
                agrees,
                from + 1,
            ),
            Screening::Filter => if agrees(from) {
                seq![Event::Continue, Event::Filter(FilterOutcome::Exited { success: true })]
            } else {
                seq![Event::Continue, Event::Filter(FilterOutcome::Exited { success: false })]
                    + matching_events(policies, root, agrees, from + 1)
            },
        }
    }
}

/// What the search for the policy of the root at `root` comes to: the root
/// is dealt with under the first policy that monitors it, and is left alone
/// where none does.
pub open spec fn spec_judged(
    context: RunContext,
    base: Progress,
    root: usize,
    agrees: spec_fn(int) -> bool,
    from: int,
) -> Outcome {
    match first_monitoring(
        context.temporary_root_policies@,
        context.gc_roots@[root as int],
        agrees,
        from,
    ) {
        Some(winner) => context.spec_matched(base, root as int, winner),
        None => base.quietly(Stage::Matching { root: (root + 1) as usize, policy: 0 }),
    }
}

/// What follows when a policy monitors a root does not depend on the stage
/// at which the run stood.
proof fn lemma_matched_whatever_the_stage(
    context: RunContext,
    base: Progress,
    stage: Stage,
    root: int,
    policy: int,
)
    ensures
        context.spec_matched(base.at(stage), root, policy) == context.spec_matched(
            base,
            root,
            policy,
        ),
{
    reveal(RunContext::spec_matched);
    reveal(RunContext::spec_offer);
    reveal(RunContext::spec_removal);
}

/// What the step comes to that asks a policy about a root.
proof fn lemma_step_asks(context: RunContext, base: Progress, root: usize, policy: usize)
    requires
        base.stage == (Stage::Matching { root, policy }),
    ensures
        context.spec_step(base, Event::Continue) == Ok::<Outcome, RunError>(
            context.spec_matching(base, root, policy),
        ),
{
    reveal(RunContext::spec_step);
}

/// What the step comes to that takes the end of a filter.
proof fn lemma_step_takes_verdict(
    context: RunContext,
    base: Progress,
    root: usize,
    policy: usize,
    success: bool,
)
    requires
        base.stage == (Stage::Filtering { root, policy }),
    ensures
        context.spec_step(base, Event::Filter(FilterOutcome::Exited { success }))
            == context.spec_filtered(base, root, policy, FilterOutcome::Exited { success }),
{
    reveal(RunContext::spec_step);
}

/// A pass of one step comes to what the step comes to.
pub proof fn lemma_pass_of_one(context: RunContext, from: Progress, event: Event)
    ensures
        context.spec_pass(from, seq![event]) == context.spec_step(from, event),
{
    let events = seq![event];
    assert(events.len() == 1 && events[0] == event);
}

/// A pass that begins with a step that has nothing done comes to what the
/// rest of the pass comes to.
pub proof fn lemma_pass_after_quiet_step(
    context: RunContext,
    from: Progress,
    event: Event,
    rest: Seq<Event>,
)
    requires
        rest.len() > 0,
        context.spec_step(from, event) matches Ok(first) && first.effects
            == Seq::<Effect>::empty(),
    ensures
        context.spec_pass(from, seq![event] + rest) == context.spec_pass(
            context.spec_step(from, event)->Ok_0.progress,
            rest,
        ),
{
    let events = seq![event] + rest;
    let first = context.spec_step(from, event)->Ok_0;
    assert(events[0] == event);
    assert(events.drop_first() =~= rest);
    match context.spec_pass(first.progress, rest) {
        Ok(later) => {
            assert(first.effects + later.effects =~= later.effects);
        },
        Err(_) => {},
    }
}

/// A root is judged by the first policy in order that monitors it, and by no
/// other. The run asks the policies one after the other; a policy that
/// ignores the root, or whose filter refuses it, hands the root to the next
/// policy without a trace, and nothing at all happens to a root that every
/// policy hands on.
pub proof fn lemma_first_monitoring_policy_judges(
    context: RunContext,
    base: Progress,
    root: usize,
    from: usize,
    agrees: spec_fn(int) -> bool,
)
    requires
        base.stage == (Stage::Matching { root, policy: from }),
        root < context.gc_roots@.len(),
    ensures
        context.spec_pass(
            base,
            matching_events(
                context.temporary_root_policies@,
                context.gc_roots@[root as int],
                agrees,
                from as int,
            ),
        ) == Ok::<Outcome, RunError>(spec_judged(context, base, root, agrees, from as int)),
    decreases context.temporary_root_policies@.len() - from,
{
    let policies = context.temporary_root_policies@;
    let item = context.gc_roots@[root as int];
    let judged = spec_judged(context, base, root, agrees, from as int);
    assert(policies.len() == context.temporary_root_policies.len());
    lemma_step_asks(context, base, root, from);
    if from >= policies.len() {
        lemma_pass_of_one(context, base, Event::Continue);
    } else {
        let next = Stage::Matching { root, policy: (from + 1) as usize };
        let after = base.at(next);
        let rest = matching_events(policies, item, agrees, from + 1);
        match policies[from as int].1.spec_screen(item) {
            Screening::Monitored => {
                lemma_pass_of_one(context, base, Event::Continue);
            },
            Screening::Ignored => {
                lemma_first_monitoring_policy_judges(
                    context,
                    after,
                    root,
                    (from + 1) as usize,
                    agrees,
                );
                lemma_judged_whatever_the_stage(context, base, next, root, agrees, from + 1);
                lemma_matching_events_not_empty(policies, item, agrees, from + 1);
                lemma_pass_after_quiet_step(context, base, Event::Continue, rest);
            },
            Screening::Filter => {
                let waiting = base.at(Stage::Filtering { root, policy: from });
                if agrees(from as int) {
                    let verdict = Event::Filter(FilterOutcome::Exited { success: true });
                    lemma_step_takes_verdict(context, waiting, root, from, true);
                    lemma_pass_of_one(context, waiting, verdict);
                    lemma_matched_whatever_the_stage(
                        context,
                        base,
                        waiting.stage,
                        root as int,
                        from as int,
                    );
                    lemma_pass_after_quiet_step(context, base, Event::Continue, seq![verdict]);
                    assert(seq![Event::Continue] + seq![verdict] =~= seq![
                        Event::Continue,
                        verdict,
                    ]);
                } else {
                    let verdict = Event::Filter(FilterOutcome::Exited { success: false });
                    lemma_step_takes_verdict(context, waiting, root, from, false);
                    lemma_first_monitoring_policy_judges(
                        context,
                        after,
                        root,
                        (from + 1) as usize,
                        agrees,
                    );
                    lemma_judged_whatever_the_stage(context, base, next, root, agrees, from + 1);
                    lemma_matching_events_not_empty(policies, item, agrees, from + 1);
                    assert(waiting.at(next) == after);
                    lemma_pass_after_quiet_step(context, waiting, verdict, rest);
                    lemma_pass_after_quiet_step(
                        context,
                        base,
                        Event::Continue,
                        seq![verdict] + rest,
                    );
                    assert(seq![Event::Continue] + (seq![verdict] + rest) =~= seq![
                        Event::Continue,
                        verdict,
                    ] + rest);
                }
            },
        }
    }
}

/// The search for the policy of a root is handed at least one event.
proof fn lemma_matching_events_not_empty(
    policies: Seq<(String, TemporaryRootPolicy)>,
    root: GcRoot,
    agrees: spec_fn(int) -> bool,
    from: int,
)
    ensures
        matching_events(policies, root, agrees, from).len() > 0,
{
}

/// What the search for the policy of a root comes to does not depend on the
/// stage at which the run stood.
proof fn lemma_judged_whatever_the_stage(
    context: RunContext,
    base: Progress,
    stage: Stage,
    root: usize,
    agrees: spec_fn(int) -> bool,
    from: int,
)
    ensures
        spec_judged(context, base.at(stage), root, agrees, from) == spec_judged(
            context,
            base,
            root,
            agrees,
            from,
        ),
{
    let winner = first_monitoring(
        context.temporary_root_policies@,
        context.gc_roots@[root as int],
        agrees,
        from,
    );
    if winner is Some {
        lemma_matched_whatever_the_stage(context, base, stage, root as int, winner->0);
    }
}

/// A root that is no older than the period of the first policy that monitors
/// it is never removed, however the run asks: the search for its policy ends
/// with the root counted as monitored, and with nothing else.
pub proof fn lemma_young_root_is_never_removed(
    context: RunContext,
    base: Progress,
    root: usize,
    agrees: spec_fn(int) -> bool,
    from: int,
)
    requires
        first_monitoring(
            context.temporary_root_policies@,
            context.gc_roots@[root as int],
            agrees,
            from,
        ) matches Some(winner) && context.temporary_root_policies@[winner].1.config.period
            matches Some(period) && context.gc_roots@[root as int].age.nanos <= period.nanos,
    ensures
        spec_judged(context, base, root, agrees, from) == (Progress {
            monitored: wrapped_sum(base.monitored, 1),
            ..base
        }).quietly(Stage::Matching { root: (root + 1) as usize, policy: 0 }),
{
    reveal(RunContext::spec_matched);
}

/// Of two policies of one priority and different names that both pick a
/// root by its path and have no filter, the one whose name comes first in
/// the order of a dictionary judges the root where the other could: the
/// first policy that monitors the root is never the one with the later name.
pub proof fn lemma_earlier_name_wins(
    context: RunContext,
    root: GcRoot,
    agrees: spec_fn(int) -> bool,
    a: int,
    b: int,
)
    requires
        in_order(context.temporary_root_policies@),
        0 <= a < context.temporary_root_policies@.len(),
        0 <= b < context.temporary_root_policies@.len(),
        context.temporary_root_policies@[a].1.config.priority
            == context.temporary_root_policies@[b].1.config.priority,
        context.temporary_root_policies@[a].0@ != context.temporary_root_policies@[b].0@,
        lex_le(
            encode_utf8(context.temporary_root_policies@[a].0@),
            encode_utf8(context.temporary_root_policies@[b].0@),
        ),
        context.temporary_root_policies@[a].1.spec_screen(root) == Screening::Monitored,
    ensures
        first_monitoring(context.temporary_root_policies@, root, agrees, 0) != Some(b),
{
    crate::config::lemma_name_breaks_ties(context.temporary_root_policies@, a, b);
    lemma_first_monitoring_is_first(context.temporary_root_policies@, root, agrees, 0, a);
}

/// The first policy that monitors a root stands no later than any policy
/// that monitors it without a filter.
pub proof fn lemma_first_monitoring_is_first(
    policies: Seq<(String, TemporaryRootPolicy)>,
    root: GcRoot,
    agrees: spec_fn(int) -> bool,
    from: int,
    monitoring: int,
)
    requires
        0 <= from <= monitoring < policies.len(),
        policies[monitoring].1.spec_screen(root) == Screening::Monitored,
    ensures
        first_monitoring(policies, root, agrees, from) matches Some(winner) && from <= winner
            <= monitoring,
    decreases monitoring - from,
{
    if from < monitoring {
        lemma_first_monitoring_is_first(policies, root, agrees, from + 1, monitoring);
    }
}

/// What a rehearsal does where the real run does `effect`: the same, with a
/// removal told as rehearsed.
pub open spec fn rehearsed_effect(effect: Effect) -> Effect {
    match effect {
        Effect::Notify(notice) => Effect::Notify(
            Notice {
                policy_name: notice.policy_name,
                action: notice.action,
                dry_run: notice.action == Action::Remove,
                path: notice.path,
                age: notice.age,
            },
        ),
        Effect::Emit { after_delimiter, path } => Effect::Emit { after_delimiter, path },
    }
}

/// What a rehearsal has done where the real run has `effects` done.
pub open spec fn rehearsal_of(effects: Seq<Effect>) -> Seq<Effect> {
    Seq::new(effects.len(), |i: int| rehearsed_effect(effects[i]))
}

/// What a rehearsal asks for where the real run asks for `query`: the same,
/// but no deletion.
pub open spec fn rehearsed_query(query: Query) -> Query {
    match query {
        Query::Delete { .. } => Query::Continue,
        other => other,
    }
}

/// What a rehearsal is handed where the real run is handed `event`: the
/// same, but nothing where the real run hears of a deletion.
pub open spec fn rehearsed_event(event: Event) -> Event {
    match event {
        Event::Deleted(_) => Event::Continue,
        other => other,
    }
}

/// What a rehearsal is handed where the real run is handed `events`.
pub open spec fn rehearsed_events(events: Seq<Event>) -> Seq<Event> {
    Seq::new(events.len(), |i: int| rehearsed_event(events[i]))
}

/// Whether `rehearsal` and `actual` are set up alike and have the same roots,
/// but for this: the first is a rehearsal, the second is not.
pub open spec fn rehearses(rehearsal: RunContext, actual: RunContext) -> bool {
    &&& rehearsal.options.dry_run
    &&& !actual.options.dry_run
    &&& rehearsal.options.interactive == actual.options.interactive
    &&& rehearsal.store == actual.store
    &&& rehearsal.owned_only == actual.owned_only
    &&& rehearsal.remove_root == actual.remove_root
    &&& rehearsal.temporary_root_policies == actual.temporary_root_policies
    &&& rehearsal.profile_policies == actual.profile_policies
    &&& rehearsal.current == actual.current
    &&& rehearsal.uid == actual.uid
    &&& rehearsal.gc_roots == actual.gc_roots
}

/// Whether `rehearsed` is what a step of a rehearsal comes to where the same
/// step of the real run comes to `outcome`: the same progress and the same
/// things done, and the same question but for a deletion.
pub open spec fn rehearsed_as(rehearsed: Outcome, outcome: Outcome) -> bool {
    &&& rehearsed.progress == outcome.progress
    &&& rehearsed.query == rehearsed_query(outcome.query)
    &&& rehearsed.effects == rehearsal_of(outcome.effects)
}

proof fn lemma_rehearsal_of_nothing()
    ensures
        rehearsal_of(Seq::<Effect>::empty()) == Seq::<Effect>::empty(),
{
    assert(rehearsal_of(Seq::<Effect>::empty()) =~= Seq::<Effect>::empty());
}

proof fn lemma_rehearsal_of_one(effect: Effect)
    ensures
        rehearsal_of(seq![effect]) == seq![rehearsed_effect(effect)],
{
    assert(rehearsal_of(seq![effect]) =~= seq![rehearsed_effect(effect)]);
}

proof fn lemma_removal_rehearsed(
    rehearsal: RunContext,
    actual: RunContext,
    base: Progress,
    name: String,
    at: int,
    deleting: Stage,
)
    requires
        rehearses(rehearsal, actual),
    ensures
        rehearsed_as(
            rehearsal.spec_removal(base, name, at, deleting),
            actual.spec_removal(base, name, at, deleting),
        ),
{
    reveal(RunContext::spec_removal);
    lemma_rehearsal_of_one(actual.spec_notice(name, actual.gc_roots@[at], Action::Remove));
}

proof fn lemma_deleted_rehearsed(
    rehearsal: RunContext,
    actual: RunContext,
    base: Progress,
    at: int,
    event: Event,
    then: Stage,
)
    requires
        rehearses(rehearsal, actual),
    ensures
        actual.spec_deleted(base, at, event, then) matches Ok(outcome)
            ==> rehearsal.spec_deleted(base, at, rehearsed_event(event), then) matches Ok(
            rehearsed,
        ) && rehearsed_as(rehearsed, outcome),
{
    reveal(RunContext::spec_deleted);
    lemma_rehearsal_of_one(
        Effect::Emit {
            after_delimiter: !base.first_output,
            path: actual.spec_path_to_remove(actual.gc_roots@[at]),
        },
    );
}

proof fn lemma_offer_rehearsed(
    rehearsal: RunContext,
    actual: RunContext,
    base: Progress,
    name: String,
    at: int,
    then: Stage,
    confirming: Stage,
    deleting: Stage,
)
    requires
        rehearses(rehearsal, actual),
    ensures
        rehearsed_as(
            rehearsal.spec_offer(base, name, at, then, confirming, deleting),
            actual.spec_offer(base, name, at, then, confirming, deleting),
        ),
{
    reveal(RunContext::spec_offer);
    lemma_removal_rehearsed(
        rehearsal,
        actual,
        Progress { taken: base.taken.update(at, true), ..base },
        name,
        at,
        deleting,
    );
    lemma_rehearsal_of_one(actual.spec_notice(name, actual.gc_roots@[at], Action::AboutToRemove));
}

proof fn lemma_answer_rehearsed(
    rehearsal: RunContext,
    actual: RunContext,
    base: Progress,
    name: String,
    at: int,
    answer: Option<bool>,
    then: Stage,
    deleting: Stage,
)
    requires
        rehearses(rehearsal, actual),
    ensures
        actual.spec_answer(base, name, at, answer, then, deleting) matches Ok(outcome)
            ==> rehearsal.spec_answer(base, name, at, answer, then, deleting) matches Ok(
            rehearsed,
        ) && rehearsed_as(rehearsed, outcome),
{
    reveal(RunContext::spec_answer);
    lemma_removal_rehearsed(rehearsal, actual, base, name, at, deleting);
    lemma_rehearsal_of_one(actual.spec_notice(name, actual.gc_roots@[at], Action::Ignored));
}

proof fn lemma_matched_rehearsed(
    rehearsal: RunContext,
    actual: RunContext,
    base: Progress,
    root: int,
    policy: int,
)
    requires
        rehearses(rehearsal, actual),
    ensures
        rehearsed_as(
            rehearsal.spec_matched(base, root, policy),
            actual.spec_matched(base, root, policy),
        ),
{
    reveal(RunContext::spec_matched);
    lemma_rehearsal_of_nothing();
    let entry = actual.temporary_root_policies@[policy];
    let monitored = Progress { monitored: wrapped_sum(base.monitored, 1), ..base };
    let own = root_of_link(actual.gc_roots@, actual.gc_roots@[root].link_path@);
    if own is Some {
        lemma_offer_rehearsed(
            rehearsal,
            actual,
            Progress { expired: wrapped_sum(monitored.expired, 1), ..monitored },
            entry.0,
            own->0,
            Stage::Matching { root: (root + 1) as usize, policy: 0 },
            Stage::ConfirmingRoot { root: root as usize, policy: policy as usize },
            Stage::DeletingRoot { root: root as usize },
        );
    }
}

/// A step of a rehearsal ends as the same step of the real run, where the
/// rehearsal is handed nothing in place of the news of a deletion: at the
/// same stage with the same candidates, the same roots offered and the same
/// counts, having told the operator the same and written the same paths,
/// and with the same question but for the deletion, which the rehearsal
/// does not ask for.
pub proof fn lemma_rehearsal_steps_the_same_way(
    rehearsal: RunContext,
    actual: RunContext,
    base: Progress,
    event: Event,
)
    requires
        rehearses(rehearsal, actual),
    ensures
        actual.spec_step(base, event) matches Ok(outcome) ==> rehearsal.spec_step(
            base,
            rehearsed_event(event),
        ) matches Ok(rehearsed) && rehearsed_as(rehearsed, outcome),
{
    reveal(RunContext::spec_step);
    lemma_rehearsal_of_nothing();
    match (base.stage, event) {
        (Stage::Matching { root, policy }, Event::Continue) => {
            if root < actual.gc_roots@.len() && policy < actual.temporary_root_policies@.len() {
                lemma_matched_rehearsed(rehearsal, actual, base, root as int, policy as int);
            }
        },
        (Stage::Filtering { root, policy }, Event::Filter(outcome)) => {
            if root < actual.gc_roots@.len() && policy < actual.temporary_root_policies@.len() {
                lemma_matched_rehearsed(rehearsal, actual, base, root as int, policy as int);
            }
        },
        (Stage::ConfirmingRoot { root, policy }, Event::Answer(answer)) => {
            if actual.own(root) is Some {
                lemma_answer_rehearsed(
                    rehearsal,
                    actual,
                    base,
                    actual.temporary_root_policies@[policy as int].0,
                    actual.own(root)->0,
                    answer,
                    Stage::Matching { root: (root + 1) as usize, policy: 0 },
                    Stage::DeletingRoot { root },
                );
            }
        },
        (Stage::DeletingRoot { root }, event) => {
            if actual.own(root) is Some {
                lemma_deleted_rehearsed(
                    rehearsal,
                    actual,
                    base,
                    actual.own(root)->0,
                    event,
                    Stage::Matching { root: (root + 1) as usize, policy: 0 },
                );
            }
        },
        (Stage::Judging { policy, path, next }, Event::Continue) => {
            lemma_offer_rehearsed(
                rehearsal,
                actual,
                Progress { expired: wrapped_sum(base.expired, 1), ..base },
                actual.profile_policies@[policy as int].0,
                base.candidates[next as int] as int,
                Stage::Judging { policy, path, next: (next + 1) as usize },
                Stage::ConfirmingGeneration { policy, path, next },
                Stage::DeletingGeneration { policy, path, next },
            );
        },
        (Stage::ConfirmingGeneration { policy, path, next }, Event::Answer(answer)) => {
            lemma_answer_rehearsed(
                rehearsal,
                actual,
                base,
                actual.profile_policies@[policy as int].0,
                base.candidates[next as int] as int,
                answer,
                Stage::Judging { policy, path, next: (next + 1) as usize },
                Stage::DeletingGeneration { policy, path, next },
            );
        },
        (Stage::DeletingGeneration { policy, path, next }, event) => {
            lemma_deleted_rehearsed(
                rehearsal,
                actual,
                base,
                base.candidates[next as int] as int,
                event,
                Stage::Judging { policy, path, next: (next + 1) as usize },
            );
        },
        (Stage::Removing { next }, Event::Continue) => {
            lemma_removal_rehearsed(
                rehearsal,
                actual,
                base,
                base.waiting[next as int].0,
                base.waiting[next as int].1 as int,
                Stage::DeletingWaiting { next },
            );
        },
        (Stage::DeletingWaiting { next }, event) => {
            lemma_deleted_rehearsed(
                rehearsal,
                actual,
                base,
                base.waiting[next as int].1 as int,
                event,
                Stage::Removing { next: (next + 1) as usize },
            );
        },
        _ => {},
    }
}

/// The rehearsal of two runs of effects, one after the other, is the
/// rehearsal of the first and then that of the second.
pub proof fn lemma_rehearsal_of_concat(first: Seq<Effect>, second: Seq<Effect>)
    ensures
        rehearsal_of(first + second) == rehearsal_of(first) + rehearsal_of(second),
{
    assert(rehearsal_of(first + second) =~= rehearsal_of(first) + rehearsal_of(second));
}

/// A rehearsal and a real run that start alike and are handed the same
/// answers go the same way to the end, where the rehearsal is handed
/// nothing in place of the news of each deletion: they reach the same stage
/// with the same candidates, the same roots offered and the same counts,
/// having told the operator the same and written the same paths in the same
/// order; only the deletions are missing in the rehearsal.
pub proof fn lemma_rehearsal_goes_the_same_way(
    rehearsal: RunContext,
    actual: RunContext,
    from: Progress,
    events: Seq<Event>,
)
    requires
        rehearses(rehearsal, actual),
    ensures
        actual.spec_pass(from, events) matches Ok(outcome) ==> rehearsal.spec_pass(
            from,
            rehearsed_events(events),
        ) matches Ok(rehearsed) && rehearsed_as(rehearsed, outcome),
    decreases events.len(),
{
    let told = rehearsed_events(events);
    if events.len() == 0 {
        lemma_rehearsal_of_nothing();
    } else {
        assert(told[0] == rehearsed_event(events[0]));
        lemma_rehearsal_steps_the_same_way(rehearsal, actual, from, events[0]);
        match actual.spec_step(from, events[0]) {
            Ok(first) => {
                if events.len() > 1 {
                    assert(told.drop_first() =~= rehearsed_events(events.drop_first()));
                    lemma_rehearsal_goes_the_same_way(
                        rehearsal,
                        actual,
                        first.progress,
                        events.drop_first(),
                    );
                    match actual.spec_pass(first.progress, events.drop_first()) {
                        Ok(rest) => {
                            lemma_rehearsal_of_concat(first.effects, rest.effects);
                        },
                        Err(_) => {},
                    }
                }
            },
            Err(_) => {},
        }
    }
}

} // verus!
