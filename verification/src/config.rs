//! The configuration of a run and of its policies.

use crate::filter::{clone_strings, Filter};
use crate::pattern::clone_regex;
use crate::policy::profile::ProfilePolicy;
use crate::policy::temporary::TemporaryRootPolicy;
use crate::text::{
    bytes_le, lemma_lex_le_antisymmetric, lemma_lex_le_total, lemma_lex_le_transitive, lex_le,
};
use crate::paths::{
    is_absolute, is_absolute_path, path_eq, path_starts_with, same_path, starts_with,
};
use crate::time::Duration;
use regex::bytes::Regex;
use vstd::prelude::*;
use vstd::utf8::{encode_utf8, encode_utf8_decode_utf8};

verus! {

/// Why a configuration is refused.
#[derive(Clone, Copy, Debug, PartialEq, Eq, Structural)]
pub enum ConfigError {
    /// Two profile policies claim the same profile path.
    DuplicateProfilePath,
    /// The temporary-root policy at this position is enabled and has no
    /// period.
    MissingPeriod { policy: usize },
    /// The profile policy at this position is enabled and has neither
    /// `keep_since` nor `keep_latest_n`.
    MissingKeepRule { policy: usize },
    /// The profile path at position `path` of the profile policy at position
    /// `policy` is neither absolute nor begins with `~`.
    RelativeProfilePath { policy: usize, path: usize },
}

/// A configuration that can be validated before it is used.
pub trait Validate {
    /// What the validation finds: the first fault, or none.
    spec fn verdict(&self) -> Result<(), ConfigError>;

    /// Validates the configuration.
    fn validate(&self) -> (r: Result<(), ConfigError>)
        ensures
            r == self.verdict(),
    ;
}

/// Whether only what the running user owns is looked at.
#[derive(Clone, Copy, Debug, PartialEq, Eq, Structural)]
pub enum OwnedOnly {
    /// Yes, unless the run is root's.
    Auto,
    /// Yes.
    True,
    /// No.
    False,
}

impl Default for OwnedOnly {
    fn default() -> (r: OwnedOnly)
        ensures
            r == OwnedOnly::Auto,
    {
        OwnedOnly::Auto
    }
}

impl OwnedOnly {
    /// The setting as it holds for the user `current_uid`.
    pub open spec fn spec_instantiate(&self, current_uid: u32) -> bool {
        match self {
            OwnedOnly::Auto => current_uid != 0,
            OwnedOnly::True => true,
            OwnedOnly::False => false,
        }
    }

    /// Settles the setting for the user `current_uid`: `Auto` means yes for
    /// every user but root.
    pub fn instantiate(&self, current_uid: u32) -> (r: bool)
        ensures
            r == self.spec_instantiate(current_uid),
    {
        match self {
            OwnedOnly::Auto => current_uid != 0,
            OwnedOnly::True => true,
            OwnedOnly::False => false,
        }
    }
}

/// What every policy can be told.
#[derive(Clone, Copy, Debug, PartialEq, Eq, Structural)]
pub struct CommonPolicyConfig {
    /// Whether the policy takes part in the run.
    pub enable: bool,
}

/// How a temporary-root policy chooses and judges roots.
#[derive(Debug)]
pub struct TemporaryRootConfig {
    /// Settings shared with the other kind of policy.
    pub common: CommonPolicyConfig,
    /// Rank among the policies: a lower number is asked first, and among
    /// equal numbers the name decides.
    pub priority: usize,
    /// Only targets that the expression matches are monitored.
    pub path_regex: Regex,
    /// A program that has the last word on whether a root is monitored.
    pub filter: Option<Filter>,
    /// Targets below one of these paths are ignored.
    pub ignore_prefixes: Vec<String>,
    /// Targets below one of these paths, taken from the home directory of
    /// the target's owner, are ignored.
    pub ignore_prefixes_in_home: Vec<String>,
    /// How old a monitored root may become.
    pub period: Option<Duration>,
}

/// How a profile policy chooses the generations it keeps.
#[derive(Debug)]
pub struct ProfileConfig {
    /// Settings shared with the other kind of policy.
    pub common: CommonPolicyConfig,
    /// Paths of the profiles that the policy looks after. Each is absolute or
    /// begins with `~`.
    pub profile_paths: Vec<String>,
    /// Keep every generation that is at most this old.
    pub keep_since: Option<Duration>,
    /// Keep this many of the newest generations.
    pub keep_latest_n: Option<usize>,
    /// Keep the generation that is the current system.
    pub keep_current_system: bool,
    /// Keep the generation that is the booted system.
    pub keep_booted_system: bool,
}

/// The settings of a run.
#[derive(Debug)]
pub struct RunConfig {
    /// Only roots that point into this store are monitored.
    pub store: String,
    /// Whether only targets that the running user owns are monitored.
    pub owned_only: OwnedOnly,
    /// Remove the root itself and not its target.
    pub remove_root: bool,
    /// Directories that hold the roots.
    pub directory: Vec<String>,
    /// The temporary-root policies by name.
    pub temporary_root_policies: Vec<(String, TemporaryRootConfig)>,
    /// The profile policies by name.
    pub profile_policies: Vec<(String, ProfileConfig)>,
}

/// The settings of the command that refreshes roots.
#[derive(Debug)]
pub struct TouchConfig {
    /// Only links that point into this store are touched.
    pub store: String,
}

/// Whether no two of the entries have the same name.
pub open spec fn distinct_names<T>(entries: Seq<(String, T)>) -> bool {
    forall|i: int, j: int|
        0 <= i < j < entries.len() ==> (#[trigger] entries[i]).0@ != (#[trigger] entries[j]).0@
}

impl RunConfig {
    /// The policies of each kind are told apart by their names: no two
    /// temporary-root policies have the same name, and no two profile
    /// policies.
    pub open spec fn wf(&self) -> bool {
        distinct_names(self.temporary_root_policies@) && distinct_names(self.profile_policies@)
    }

    /// Tells whether the policies of each kind have names of their own.
    pub fn well_formed(&self) -> (r: bool)
        ensures
            r == self.wf(),
    {
        let mut i: usize = 0;
        while i < self.temporary_root_policies.len()
            invariant
                i <= self.temporary_root_policies.len(),
                distinct_names(self.temporary_root_policies@.subrange(0, i as int)),
            decreases self.temporary_root_policies.len() - i,
        {
            let mut j: usize = 0;
            while j < i
                invariant
                    j <= i < self.temporary_root_policies.len(),
                    forall|k: int|
                        0 <= k < j ==> (#[trigger] self.temporary_root_policies@[k]).0@
                            != self.temporary_root_policies@[i as int].0@,
                decreases i - j,
            {
                if self.temporary_root_policies[j].0 == self.temporary_root_policies[i].0 {
                    return false;
                }
                j += 1;
            }
            proof {
                let longer = self.temporary_root_policies@.subrange(0, i + 1);
                let shorter = self.temporary_root_policies@.subrange(0, i as int);
                assert forall|a: int, b: int| 0 <= a < b < longer.len() implies (
                #[trigger] longer[a]).0@ != (#[trigger] longer[b]).0@ by {
                    if b < i {
                        assert(shorter[a] == longer[a] && shorter[b] == longer[b]);
                    }
                }
            }
            i += 1;
        }
        assert(self.temporary_root_policies@.subrange(0, i as int)
            == self.temporary_root_policies@);
        let mut p: usize = 0;
        while p < self.profile_policies.len()
            invariant
                p <= self.profile_policies.len(),
                distinct_names(self.temporary_root_policies@),
                distinct_names(self.profile_policies@.subrange(0, p as int)),
            decreases self.profile_policies.len() - p,
        {
            let mut q: usize = 0;
            while q < p
                invariant
                    q <= p < self.profile_policies.len(),
                    forall|k: int|
                        0 <= k < q ==> (#[trigger] self.profile_policies@[k]).0@
                            != self.profile_policies@[p as int].0@,
                decreases p - q,
            {
                if self.profile_policies[q].0 == self.profile_policies[p].0 {
                    return false;
                }
                q += 1;
            }
            proof {
                let longer = self.profile_policies@.subrange(0, p + 1);
                let shorter = self.profile_policies@.subrange(0, p as int);
                assert forall|a: int, b: int| 0 <= a < b < longer.len() implies (
                #[trigger] longer[a]).0@ != (#[trigger] longer[b]).0@ by {
                    if b < p {
                        assert(shorter[a] == longer[a] && shorter[b] == longer[b]);
                    }
                }
            }
            p += 1;
        }
        assert(self.profile_policies@.subrange(0, p as int) == self.profile_policies@);
        true
    }
}

/// A temporary-root policy that takes part in the run needs a period.
pub open spec fn temporary_fault(config: TemporaryRootConfig) -> bool {
    config.common.enable && config.period is None
}

/// Whether a profile path may stand in a configuration: it is absolute, or
/// its first component is `~`.
pub open spec fn profile_path_accepted(path: Seq<char>) -> bool {
    path_starts_with(path, "~"@) || is_absolute_path(path)
}

/// A profile policy that takes part in the run needs a rule to keep by.
pub open spec fn keep_rule_missing(config: ProfileConfig) -> bool {
    config.common.enable && config.keep_since is None && config.keep_latest_n is None
}

/// Whether the path at position `i` is the first of the policy that is not
/// accepted.
pub open spec fn first_refused_path(config: ProfileConfig, i: int) -> bool {
    &&& 0 <= i < config.profile_paths@.len()
    &&& !profile_path_accepted(config.profile_paths@[i]@)
    &&& forall|j: int| 0 <= j < i ==> profile_path_accepted(#[trigger] config.profile_paths@[j]@)
}

/// The fault of a profile policy, if it has one; `policy` is its position.
pub open spec fn profile_fault(config: ProfileConfig, policy: usize) -> Option<ConfigError> {
    if keep_rule_missing(config) {
        Some(ConfigError::MissingKeepRule { policy })
    } else if exists|i: int| first_refused_path(config, i) {
        Some(
            ConfigError::RelativeProfilePath {
                policy,
                path: (choose|i: int| first_refused_path(config, i)) as usize,
            },
        )
    } else {
        None
    }
}

/// Whether the policy claims `path`.
pub open spec fn claims_path(config: ProfileConfig, path: Seq<char>) -> bool {
    exists|i: int|
        0 <= i < config.profile_paths@.len() && path_eq(#[trigger] config.profile_paths@[i]@, path)
}

/// Whether `first` claims a path that `second` claims too.
pub open spec fn shares_path(first: ProfileConfig, second: ProfileConfig) -> bool {
    exists|i: int|
        0 <= i < first.profile_paths@.len() && claims_path(
            second,
            #[trigger] first.profile_paths@[i]@,
        )
}

/// Whether two of the policies claim the same path.
pub open spec fn has_shared_path(policies: Seq<(String, ProfileConfig)>) -> bool {
    exists|p: int, q: int|
        0 <= p < q < policies.len() && shares_path(
            (#[trigger] policies[p]).1,
            (#[trigger] policies[q]).1,
        )
}

/// Whether the two filters, where there are any, are the same.
pub open spec fn same_filter(a: Option<Filter>, b: Option<Filter>) -> bool {
    match (a, b) {
        (None, None) => true,
        (Some(a), Some(b)) => a.same(b),
        _ => false,
    }
}

impl TemporaryRootConfig {
    /// Whether the two say the same.
    pub open spec fn same(&self, other: TemporaryRootConfig) -> bool {
        &&& self.common == other.common
        &&& self.priority == other.priority
        &&& self.path_regex == other.path_regex
        &&& same_filter(self.filter, other.filter)
        &&& self.ignore_prefixes@ == other.ignore_prefixes@
        &&& self.ignore_prefixes_in_home@ == other.ignore_prefixes_in_home@
        &&& self.period == other.period
    }
}

impl Clone for TemporaryRootConfig {
    fn clone(&self) -> (r: Self)
        ensures
            r.same(*self),
    {
        TemporaryRootConfig {
            common: self.common,
            priority: self.priority,
            path_regex: clone_regex(&self.path_regex),
            filter: match &self.filter {
                Some(filter) => Some(filter.clone()),
                None => None,
            },
            ignore_prefixes: clone_strings(&self.ignore_prefixes),
            ignore_prefixes_in_home: clone_strings(&self.ignore_prefixes_in_home),
            period: self.period,
        }
    }
}

impl ProfileConfig {
    /// Whether the two say the same.
    pub open spec fn same(&self, other: ProfileConfig) -> bool {
        &&& self.common == other.common
        &&& self.profile_paths@ == other.profile_paths@
        &&& self.keep_since == other.keep_since
        &&& self.keep_latest_n == other.keep_latest_n
        &&& self.keep_current_system == other.keep_current_system
        &&& self.keep_booted_system == other.keep_booted_system
    }
}

impl Clone for ProfileConfig {
    fn clone(&self) -> (r: Self)
        ensures
            r.same(*self),
    {
        ProfileConfig {
            common: self.common,
            profile_paths: clone_strings(&self.profile_paths),
            keep_since: self.keep_since,
            keep_latest_n: self.keep_latest_n,
            keep_current_system: self.keep_current_system,
            keep_booted_system: self.keep_booted_system,
        }
    }
}

/// Whether a policy of priority `a_priority` named `a_name` is asked no
/// later than one of priority `b_priority` named `b_name`: the lower
/// priority number goes first, and among equal numbers the name that comes
/// first in the order of a dictionary, taken over the bytes of the names.
pub open spec fn ranked_le(
    a_priority: usize,
    a_name: Seq<char>,
    b_priority: usize,
    b_name: Seq<char>,
) -> bool {
    a_priority < b_priority || (a_priority == b_priority && lex_le(
        encode_utf8(a_name),
        encode_utf8(b_name),
    ))
}

/// Whether the entry at `i` is asked no later than the entry at `j`.
pub open spec fn entry_le(entries: Seq<(String, TemporaryRootConfig)>, i: int, j: int) -> bool {
    ranked_le(entries[i].1.priority, entries[i].0@, entries[j].1.priority, entries[j].0@)
}

/// Where the entry at `i` enters `order`: right behind the last entry that
/// is asked no later than it.
pub open spec fn order_place(
    entries: Seq<(String, TemporaryRootConfig)>,
    order: Seq<int>,
    i: int,
) -> int
    decreases order.len(),
{
    if order.len() == 0 {
        0
    } else if entry_le(entries, order.last(), i) {
        order.len() as int
    } else {
        order_place(entries, order.drop_last(), i)
    }
}

/// The positions of the enabled entries among the first `n`, in the order in
/// which their policies are asked. Entries of equal rank stay in the order
/// of the configuration.
pub open spec fn enabled_order(entries: Seq<(String, TemporaryRootConfig)>, n: nat) -> Seq<int>
    decreases n,
{
    if n == 0 {
        Seq::empty()
    } else {
        let before = enabled_order(entries, (n - 1) as nat);
        if entries[n - 1].1.common.enable {
            before.insert(order_place(entries, before, n - 1), n - 1)
        } else {
            before
        }
    }
}

/// Whether the policy was made from the entry.
pub open spec fn mirrors(
    policy: (String, TemporaryRootPolicy),
    entry: (String, TemporaryRootConfig),
) -> bool {
    policy.0 == entry.0 && policy.1.name == entry.0 && policy.1.config.same(entry.1)
}

/// Whether the policies stand in the order in which they are asked.
pub open spec fn in_order(policies: Seq<(String, TemporaryRootPolicy)>) -> bool {
    forall|a: int, b: int|
        0 <= a <= b < policies.len() ==> ranked_le(
            (#[trigger] policies[a]).1.config.priority,
            policies[a].0@,
            (#[trigger] policies[b]).1.config.priority,
            policies[b].0@,
        )
}

/// Whether `order` lists positions of `entries` in the order in which they
/// are asked.
pub open spec fn order_sorted(
    entries: Seq<(String, TemporaryRootConfig)>,
    order: Seq<int>,
) -> bool {
    &&& forall|k: int| 0 <= k < order.len() ==> 0 <= #[trigger] order[k] < entries.len()
    &&& forall|a: int, b: int|
        0 <= a <= b < order.len() ==> entry_le(entries, #[trigger] order[a], #[trigger] order[b])
}

/// The place of entry lies inside the order; the entry before it is asked no
/// later than the one that enters, and every entry from it on is asked
/// later.
pub proof fn lemma_order_place(
    entries: Seq<(String, TemporaryRootConfig)>,
    order: Seq<int>,
    i: int,
)
    ensures
        0 <= order_place(entries, order, i) <= order.len(),
        order_place(entries, order, i) > 0 ==> entry_le(
            entries,
            order[order_place(entries, order, i) - 1],
            i,
        ),
        forall|k: int|
            order_place(entries, order, i) <= k < order.len() ==> !entry_le(
                entries,
                #[trigger] order[k],
                i,
            ),
    decreases order.len(),
{
    if order.len() > 0 && !entry_le(entries, order.last(), i) {
        let shorter = order.drop_last();
        lemma_order_place(entries, shorter, i);
        let place = order_place(entries, order, i);
        assert forall|k: int| place <= k < order.len() implies !entry_le(
            entries,
            #[trigger] order[k],
            i,
        ) by {
            if k < shorter.len() {
                assert(shorter[k] == order[k]);
            }
        }
        if place > 0 {
            assert(shorter[place - 1] == order[place - 1]);
        }
    }
}

/// The enabled entries are listed in the order in which they are asked, and
/// no other entry is listed.
pub proof fn lemma_enabled_order_sorted(entries: Seq<(String, TemporaryRootConfig)>, n: nat)
    requires
        n <= entries.len(),
    ensures
        order_sorted(entries, enabled_order(entries, n)),
        forall|k: int|
            0 <= k < enabled_order(entries, n).len() ==> (#[trigger] enabled_order(entries, n)[k])
                < n && entries[enabled_order(entries, n)[k]].1.common.enable,
    decreases n,
{
    if n > 0 {
        let before = enabled_order(entries, (n - 1) as nat);
        lemma_enabled_order_sorted(entries, (n - 1) as nat);
        if entries[n - 1].1.common.enable {
            let i = n - 1;
            let place = order_place(entries, before, i);
            lemma_order_place(entries, before, i);
            let after = before.insert(place, i);
            assert forall|a: int, b: int| 0 <= a <= b < after.len() implies entry_le(
                entries,
                #[trigger] after[a],
                #[trigger] after[b],
            ) by {
                let x = after[a];
                let y = after[b];
                if a == b {
                    lemma_lex_le_total(encode_utf8(entries[x].0@), encode_utf8(entries[x].0@));
                } else if b < place {
                    assert(after[a] == before[a] && after[b] == before[b]);
                } else if b == place {
                    assert(after[a] == before[a]);
                    let last = before[place - 1];
                    assert(entry_le(entries, before[a], last));
                    if entries[x].1.priority == entries[last].1.priority
                        && entries[last].1.priority == entries[i].1.priority {
                        lemma_lex_le_transitive(
                            encode_utf8(entries[x].0@),
                            encode_utf8(entries[last].0@),
                            encode_utf8(entries[i].0@),
                        );
                    }
                } else if a < place {
                    assert(after[a] == before[a] && after[b] == before[b - 1]);
                } else if a == place {
                    assert(after[b] == before[b - 1]);
                    assert(!entry_le(entries, before[b - 1], i));
                    lemma_lex_le_total(encode_utf8(entries[i].0@), encode_utf8(entries[y].0@));
                } else {
                    assert(after[a] == before[a - 1] && after[b] == before[b - 1]);
                }
            }
            assert forall|k: int| 0 <= k < after.len() implies 0 <= #[trigger] after[k] < n
                && entries[after[k]].1.common.enable by {
                if k < place {
                    assert(after[k] == before[k]);
                } else if k > place {
                    assert(after[k] == before[k - 1]);
                }
            }
        }
    }
}

/// No entry is listed twice among the enabled entries.
pub proof fn lemma_enabled_order_distinct(entries: Seq<(String, TemporaryRootConfig)>, n: nat)
    requires
        n <= entries.len(),
    ensures
        forall|a: int, b: int|
            0 <= a < b < enabled_order(entries, n).len() ==> (#[trigger] enabled_order(
                entries,
                n,
            )[a]) != (#[trigger] enabled_order(entries, n)[b]),
    decreases n,
{
    if n > 0 {
        let before = enabled_order(entries, (n - 1) as nat);
        lemma_enabled_order_distinct(entries, (n - 1) as nat);
        lemma_enabled_order_sorted(entries, (n - 1) as nat);
        if entries[n - 1].1.common.enable {
            let place = order_place(entries, before, n - 1);
            lemma_order_place(entries, before, n - 1);
            let after = before.insert(place, n - 1);
            assert forall|a: int, b: int| 0 <= a < b < after.len() implies (#[trigger] after[a])
                != (#[trigger] after[b]) by {
                let x = if a < place {
                    a
                } else {
                    a - 1
                };
                let y = if b < place {
                    b
                } else {
                    b - 1
                };
                if a != place {
                    assert(after[a] == before[x]);
                    assert(before[x] < n - 1);
                }
                if b != place {
                    assert(after[b] == before[y]);
                    assert(before[y] < n - 1);
                }
            }
        }
    }
}

/// Among policies in order that are told apart by their names, each is
/// asked strictly before every policy behind it: the order leaves nothing
/// open.
pub proof fn lemma_order_is_strict(policies: Seq<(String, TemporaryRootPolicy)>, a: int, b: int)
    requires
        in_order(policies),
        distinct_names(policies),
        0 <= a < b < policies.len(),
    ensures
        !ranked_le(
            policies[b].1.config.priority,
            policies[b].0@,
            policies[a].1.config.priority,
            policies[a].0@,
        ),
{
    assert(ranked_le(
        policies[a].1.config.priority,
        policies[a].0@,
        policies[b].1.config.priority,
        policies[b].0@,
    ));
    if ranked_le(
        policies[b].1.config.priority,
        policies[b].0@,
        policies[a].1.config.priority,
        policies[a].0@,
    ) {
        lemma_lex_le_antisymmetric(encode_utf8(policies[a].0@), encode_utf8(policies[b].0@));
        encode_utf8_decode_utf8(policies[a].0@);
        encode_utf8_decode_utf8(policies[b].0@);
    }
}

/// Whether the policy at `a` is asked no later than the entry `name` of
/// priority `priority`.
fn asked_no_later(policy: &(String, TemporaryRootPolicy), priority: usize, name: &String) -> (r:
    bool)
    ensures
        r == ranked_le(policy.1.config.priority, policy.0@, priority, name@),
{
    if policy.1.config.priority != priority {
        policy.1.config.priority < priority
    } else {
        bytes_le(policy.0.as_str().as_bytes(), name.as_str().as_bytes())
    }
}

impl RunConfig {
    /// The temporary-root policies that take part in the run, in the order
    /// in which they are asked.
    pub fn enabled_temporary_root_policies(&self) -> (r: Vec<(String, TemporaryRootPolicy)>)
        ensures
            r@.len() == enabled_order(
                self.temporary_root_policies@,
                self.temporary_root_policies@.len(),
            ).len(),
            forall|k: int|
                0 <= k < r@.len() ==> mirrors(
                    #[trigger] r@[k],
                    self.temporary_root_policies@[enabled_order(
                        self.temporary_root_policies@,
                        self.temporary_root_policies@.len(),
                    )[k]],
                ),
            in_order(r@),
            distinct_names(self.temporary_root_policies@) ==> distinct_names(r@),
    {
        let entries = &self.temporary_root_policies;
        let mut result: Vec<(String, TemporaryRootPolicy)> = Vec::new();
        let mut i: usize = 0;
        while i < entries.len()
            invariant
                i <= entries.len(),
                result@.len() == enabled_order(entries@, i as nat).len(),
                forall|k: int|
                    0 <= k < result@.len() ==> mirrors(
                        #[trigger] result@[k],
                        entries@[enabled_order(entries@, i as nat)[k]],
                    ),
            decreases entries.len() - i,
        {
            let ghost order = enabled_order(entries@, i as nat);
            proof {
                lemma_enabled_order_sorted(entries@, i as nat);
            }
            if entries[i].1.common.enable {
                let name = entries[i].0.clone();
                let policy = TemporaryRootPolicy::new(name.clone(), entries[i].1.clone());
                let mut place: usize = result.len();
                assert(order.subrange(0, place as int) == order);
                while place > 0 && !asked_no_later(
                    &result[place - 1],
                    entries[i].1.priority,
                    &entries[i].0,
                )
                    invariant
                        place <= result@.len(),
                        i < entries.len(),
                        result@.len() == order.len(),
                        forall|k: int| 0 <= k < order.len() ==> 0 <= #[trigger] order[k] < i,
                        forall|k: int|
                            0 <= k < result@.len() ==> mirrors(
                                #[trigger] result@[k],
                                entries@[order[k]],
                            ),
                        order_place(entries@, order, i as int) == order_place(
                            entries@,
                            order.subrange(0, place as int),
                            i as int,
                        ),
                    decreases place,
                {
                    proof {
                        let part = order.subrange(0, place as int);
                        assert(part.last() == order[place - 1]);
                        assert(part.drop_last() == order.subrange(0, place - 1));
                        assert(mirrors(result@[place - 1], entries@[order[place - 1]]));
                    }
                    place -= 1;
                }
                proof {
                    let part = order.subrange(0, place as int);
                    if place > 0 {
                        assert(part.last() == order[place - 1]);
                        assert(mirrors(result@[place - 1], entries@[order[place - 1]]));
                    }
                    assert(order_place(entries@, order, i as int) == place);
                }
                let ghost before = result@;
                result.insert(place, (name, policy));
                proof {
                    let after = order.insert(place as int, i as int);
                    assert(enabled_order(entries@, (i + 1) as nat) == after);
                    assert forall|k: int| 0 <= k < result@.len() implies mirrors(
                        #[trigger] result@[k],
                        entries@[after[k]],
                    ) by {
                        if k < place {
                            assert(result@[k] == before[k]);
                            assert(mirrors(before[k], entries@[order[k]]));
                        } else if k > place {
                            assert(result@[k] == before[k - 1]);
                            assert(mirrors(before[k - 1], entries@[order[k - 1]]));
                        }
                    }
                }
            } else {
                assert(enabled_order(entries@, (i + 1) as nat) == order);
            }
            i += 1;
        }
        proof {
            let order = enabled_order(entries@, entries@.len());
            lemma_enabled_order_sorted(entries@, entries@.len());
            assert forall|a: int, b: int| 0 <= a <= b < result@.len() implies ranked_le(
                (#[trigger] result@[a]).1.config.priority,
                result@[a].0@,
                (#[trigger] result@[b]).1.config.priority,
                result@[b].0@,
            ) by {
                assert(mirrors(result@[a], entries@[order[a]]));
                assert(mirrors(result@[b], entries@[order[b]]));
                assert(entry_le(entries@, order[a], order[b]));
            }
            if distinct_names(entries@) {
                lemma_enabled_order_distinct(entries@, entries@.len());
                assert forall|a: int, b: int| 0 <= a < b < result@.len() implies (
                #[trigger] result@[a]).0@ != (#[trigger] result@[b]).0@ by {
                    assert(mirrors(result@[a], entries@[order[a]]));
                    assert(mirrors(result@[b], entries@[order[b]]));
                    let x = order[a];
                    let y = order[b];
                    assert(x != y);
                    if x < y {
                        assert(entries@[x].0@ != entries@[y].0@);
                    } else {
                        assert(entries@[y].0@ != entries@[x].0@);
                    }
                }
            }
        }
        result
    }
}

/// Of two policies of one priority and different names, the one whose name
/// comes first in the order of a dictionary stands first among policies in
/// order, and so is asked first.
pub proof fn lemma_name_breaks_ties(policies: Seq<(String, TemporaryRootPolicy)>, a: int, b: int)
    requires
        in_order(policies),
        0 <= a < policies.len(),
        0 <= b < policies.len(),
        policies[a].1.config.priority == policies[b].1.config.priority,
        policies[a].0@ != policies[b].0@,
        lex_le(encode_utf8(policies[a].0@), encode_utf8(policies[b].0@)),
    ensures
        a < b,
{
    if b <= a {
        assert(ranked_le(
            policies[b].1.config.priority,
            policies[b].0@,
            policies[a].1.config.priority,
            policies[a].0@,
        ));
        lemma_lex_le_antisymmetric(encode_utf8(policies[a].0@), encode_utf8(policies[b].0@));
        encode_utf8_decode_utf8(policies[a].0@);
        encode_utf8_decode_utf8(policies[b].0@);
    }
}

/// Of two policies of different priority, the one with the lower number
/// stands first among policies in order.
pub proof fn lemma_priority_decides(policies: Seq<(String, TemporaryRootPolicy)>, a: int, b: int)
    requires
        in_order(policies),
        0 <= a < policies.len(),
        0 <= b < policies.len(),
        policies[a].1.config.priority < policies[b].1.config.priority,
    ensures
        a < b,
{
    if b <= a {
        assert(ranked_le(
            policies[b].1.config.priority,
            policies[b].0@,
            policies[a].1.config.priority,
            policies[a].0@,
        ));
    }
}

/// The positions of the enabled entries among the first `n`, in the order of
/// the configuration.
pub open spec fn enabled_profiles(entries: Seq<(String, ProfileConfig)>, n: nat) -> Seq<int>
    decreases n,
{
    if n == 0 {
        Seq::empty()
    } else if entries[n - 1].1.common.enable {
        enabled_profiles(entries, (n - 1) as nat).push(n - 1)
    } else {
        enabled_profiles(entries, (n - 1) as nat)
    }
}

/// The enabled entries are listed in rising order of their positions.
pub proof fn lemma_enabled_profiles_rising(entries: Seq<(String, ProfileConfig)>, n: nat)
    requires
        n <= entries.len(),
    ensures
        forall|a: int, b: int|
            0 <= a < b < enabled_profiles(entries, n).len() ==> (#[trigger] enabled_profiles(
                entries,
                n,
            )[a]) < (#[trigger] enabled_profiles(entries, n)[b]),
        forall|a: int|
            0 <= a < enabled_profiles(entries, n).len() ==> 0 <= (#[trigger] enabled_profiles(
                entries,
                n,
            )[a]) < n,
    decreases n,
{
    if n > 0 {
        let before = enabled_profiles(entries, (n - 1) as nat);
        let after = enabled_profiles(entries, n);
        lemma_enabled_profiles_rising(entries, (n - 1) as nat);
        assert forall|a: int| 0 <= a < after.len() implies 0 <= (#[trigger] after[a]) < n by {
            if a < before.len() {
                assert(after[a] == before[a]);
            }
        }
        assert forall|a: int, b: int| 0 <= a < b < after.len() implies (#[trigger] after[a]) < (
        #[trigger] after[b]) by {
            assert(after[a] == before[a]);
            if b < before.len() {
                assert(after[b] == before[b]);
            }
        }
    }
}

/// Whether the policy was made from the entry.
pub open spec fn mirrors_profile(
    policy: (String, ProfilePolicy),
    entry: (String, ProfileConfig),
) -> bool {
    policy.0 == entry.0 && policy.1.name == entry.0 && policy.1.config.same(entry.1)
}

impl RunConfig {
    /// The profile policies that take part in the run, in the order of the
    /// configuration.
    pub fn enabled_profile_policies(&self) -> (r: Vec<(String, ProfilePolicy)>)
        ensures
            r@.len() == enabled_profiles(
                self.profile_policies@,
                self.profile_policies@.len(),
            ).len(),
            forall|k: int|
                0 <= k < r@.len() ==> mirrors_profile(
                    #[trigger] r@[k],
                    self.profile_policies@[enabled_profiles(
                        self.profile_policies@,
                        self.profile_policies@.len(),
                    )[k]],
                ),
            distinct_names(self.profile_policies@) ==> distinct_names(r@),
    {
        let entries = &self.profile_policies;
        let mut result: Vec<(String, ProfilePolicy)> = Vec::new();
        let mut i: usize = 0;
        while i < entries.len()
            invariant
                i <= entries.len(),
                result@.len() == enabled_profiles(entries@, i as nat).len(),
                forall|k: int|
                    0 <= k < result@.len() ==> mirrors_profile(
                        #[trigger] result@[k],
                        entries@[enabled_profiles(entries@, i as nat)[k]],
                    ),
            decreases entries.len() - i,
        {
            if entries[i].1.common.enable {
                let name = entries[i].0.clone();
                let policy = ProfilePolicy::new(name.clone(), entries[i].1.clone());
                result.push((name, policy));
            }
            i += 1;
        }
        proof {
            if distinct_names(entries@) {
                let order = enabled_profiles(entries@, entries@.len());
                lemma_enabled_profiles_rising(entries@, entries@.len());
                assert forall|a: int, b: int| 0 <= a < b < result@.len() implies (
                #[trigger] result@[a]).0@ != (#[trigger] result@[b]).0@ by {
                    assert(mirrors_profile(result@[a], entries@[order[a]]));
                    assert(mirrors_profile(result@[b], entries@[order[b]]));
                    assert(order[a] < order[b]);
                    assert(entries@[order[a]].0@ != entries@[order[b]].0@);
                }
            }
        }
        result
    }
}

/// Whether the temporary-root policy at `i` is the first with a fault.
pub open spec fn first_temporary_fault(
    policies: Seq<(String, TemporaryRootConfig)>,
    i: int,
) -> bool {
    &&& 0 <= i < policies.len()
    &&& temporary_fault(policies[i].1)
    &&& forall|j: int| 0 <= j < i ==> !temporary_fault((#[trigger] policies[j]).1)
}

/// Whether the profile policy at `i` is the first with a fault.
pub open spec fn first_profile_fault(policies: Seq<(String, ProfileConfig)>, i: int) -> bool {
    &&& 0 <= i < policies.len()
    &&& profile_fault(policies[i].1, i as usize) is Some
    &&& forall|j: int| 0 <= j < i ==> profile_fault((#[trigger] policies[j]).1, j as usize) is None
}

/// What the validation of the settings of a run finds. A path that two profile
/// policies claim comes first, then the first temporary-root policy with a
/// fault, then the first profile policy with a fault.
pub open spec fn run_config_verdict(config: RunConfig) -> Result<(), ConfigError> {
    if has_shared_path(config.profile_policies@) {
        Err(ConfigError::DuplicateProfilePath)
    } else if exists|i: int| first_temporary_fault(config.temporary_root_policies@, i) {
        Err(
            ConfigError::MissingPeriod {
                policy: (choose|i: int| first_temporary_fault(config.temporary_root_policies@, i))
                    as usize,
            },
        )
    } else if exists|i: int| first_profile_fault(config.profile_policies@, i) {
        let at = choose|i: int| first_profile_fault(config.profile_policies@, i);
        Err(profile_fault(config.profile_policies@[at].1, at as usize)->0)
    } else {
        Ok(())
    }
}

/// Whether the policy claims `path`.
fn policy_claims(config: &ProfileConfig, path: &str) -> (r: bool)
    ensures
        r == claims_path(*config, path@),
{
    let mut i: usize = 0;
    while i < config.profile_paths.len()
        invariant
            i <= config.profile_paths.len(),
            forall|j: int| 0 <= j < i ==> !path_eq(#[trigger] config.profile_paths@[j]@, path@),
        decreases config.profile_paths.len() - i,
    {
        if same_path(config.profile_paths[i].as_str(), path) {
            return true;
        }
        i += 1;
    }
    false
}

/// Whether `first` claims a path that `second` claims too.
fn policies_share(first: &ProfileConfig, second: &ProfileConfig) -> (r: bool)
    ensures
        r == shares_path(*first, *second),
{
    let mut i: usize = 0;
    while i < first.profile_paths.len()
        invariant
            i <= first.profile_paths.len(),
            forall|j: int|
                0 <= j < i ==> !claims_path(*second, #[trigger] first.profile_paths@[j]@),
        decreases first.profile_paths.len() - i,
    {
        if policy_claims(second, first.profile_paths[i].as_str()) {
            return true;
        }
        i += 1;
    }
    false
}

/// Whether two of the policies claim the same path.
fn find_shared_path(policies: &Vec<(String, ProfileConfig)>) -> (r: bool)
    ensures
        r == has_shared_path(policies@),
{
    let mut q: usize = 0;
    while q < policies.len()
        invariant
            q <= policies.len(),
            forall|a: int, b: int|
                0 <= a < b < q ==> !shares_path(
                    (#[trigger] policies@[a]).1,
                    (#[trigger] policies@[b]).1,
                ),
        decreases policies.len() - q,
    {
        let mut p: usize = 0;
        while p < q
            invariant
                p <= q < policies.len(),
                forall|a: int|
                    0 <= a < p ==> !shares_path((#[trigger] policies@[a]).1, policies@[q as int].1),
            decreases q - p,
        {
            if policies_share(&policies[p].1, &policies[q].1) {
                return true;
            }
            p += 1;
        }
        q += 1;
    }
    false
}

impl TemporaryRootConfig {
    /// Finds the fault of the policy, which stands at position `policy`.
    pub fn validate(&self, policy: usize) -> (r: Option<ConfigError>)
        ensures
            r == if temporary_fault(*self) {
                Some(ConfigError::MissingPeriod { policy })
            } else {
                None
            },
    {
        if self.common.enable && self.period.is_none() {
            Some(ConfigError::MissingPeriod { policy })
        } else {
            None
        }
    }
}

impl ProfileConfig {
    /// Finds the fault of the policy, which stands at position `policy`: a
    /// missing rule to keep by comes before a path that is not accepted.
    pub fn validate(&self, policy: usize) -> (r: Option<ConfigError>)
        ensures
            r == profile_fault(*self, policy),
    {
        if self.common.enable && self.keep_since.is_none() && self.keep_latest_n.is_none() {
            return Some(ConfigError::MissingKeepRule { policy });
        }
        let mut i: usize = 0;
        while i < self.profile_paths.len()
            invariant
                i <= self.profile_paths.len(),
                !keep_rule_missing(*self),
                forall|j: int|
                    0 <= j < i ==> profile_path_accepted(#[trigger] self.profile_paths@[j]@),
            decreases self.profile_paths.len() - i,
        {
            let path = self.profile_paths[i].as_str();
            if !(starts_with(path, "~") || is_absolute(path)) {
                proof {
                    assert(first_refused_path(*self, i as int));
                    let chosen = choose|k: int| first_refused_path(*self, k);
                    if chosen < i {
                        assert(profile_path_accepted(self.profile_paths@[chosen]@));
                    }
                    if i < chosen {
                        assert(profile_path_accepted(self.profile_paths@[i as int]@));
                    }
                }
                return Some(ConfigError::RelativeProfilePath { policy, path: i });
            }
            i += 1;
        }
        proof {
            assert forall|k: int| !first_refused_path(*self, k) by {
                if 0 <= k < self.profile_paths@.len() {
                    assert(profile_path_accepted(self.profile_paths@[k]@));
                }
            }
        }
        None
    }
}

impl Validate for RunConfig {
    open spec fn verdict(&self) -> Result<(), ConfigError> {
        run_config_verdict(*self)
    }

    fn validate(&self) -> (r: Result<(), ConfigError>) {
        if find_shared_path(&self.profile_policies) {
            return Err(ConfigError::DuplicateProfilePath);
        }
        let mut i: usize = 0;
        while i < self.temporary_root_policies.len()
            invariant
                i <= self.temporary_root_policies.len(),
                !has_shared_path(self.profile_policies@),
                forall|j: int|
                    0 <= j < i ==> !temporary_fault(
                        (#[trigger] self.temporary_root_policies@[j]).1,
                    ),
            decreases self.temporary_root_policies.len() - i,
        {
            if let Some(fault) = self.temporary_root_policies[i].1.validate(i) {
                proof {
                    assert(first_temporary_fault(self.temporary_root_policies@, i as int));
                    let chosen = choose|k: int|
                        first_temporary_fault(self.temporary_root_policies@, k);
                    if chosen < i {
                        assert(!temporary_fault(self.temporary_root_policies@[chosen].1));
                    }
                    if i < chosen {
                        assert(!temporary_fault(self.temporary_root_policies@[i as int].1));
                    }
                }
                return Err(fault);
            }
            i += 1;
        }
        proof {
            assert forall|k: int| !first_temporary_fault(self.temporary_root_policies@, k) by {
                if 0 <= k < self.temporary_root_policies@.len() {
                    assert(!temporary_fault(self.temporary_root_policies@[k].1));
                }
            }
        }
        let mut p: usize = 0;
        while p < self.profile_policies.len()
            invariant
                p <= self.profile_policies.len(),
                !has_shared_path(self.profile_policies@),
                forall|k: int| !first_temporary_fault(self.temporary_root_policies@, k),
                forall|j: int|
                    0 <= j < p ==> profile_fault(
                        (#[trigger] self.profile_policies@[j]).1,
                        j as usize,
                    ) is None,
            decreases self.profile_policies.len() - p,
        {
            match self.profile_policies[p].1.validate(p) {
                Some(fault) => {
                    proof {
                        assert(first_profile_fault(self.profile_policies@, p as int));
                        let chosen = choose|k: int| first_profile_fault(self.profile_policies@, k);
                        if chosen < p {
                            assert(profile_fault(
                                self.profile_policies@[chosen].1,
                                chosen as usize,
                            ) is None);
                        }
                        if p < chosen {
                            assert(profile_fault(
                                self.profile_policies@[p as int].1,
                                p as usize,
                            ) is None);
                        }
                    }
                    return Err(fault);
                },
                None => {},
            }
            p += 1;
        }
        proof {
            assert forall|k: int| !first_profile_fault(self.profile_policies@, k) by {
                if 0 <= k < self.profile_policies@.len() {
                    assert(profile_fault(self.profile_policies@[k].1, k as usize) is None);
                }
            }
        }
        Ok(())
    }
}

impl Validate for TouchConfig {
    open spec fn verdict(&self) -> Result<(), ConfigError> {
        Ok(())
    }

    fn validate(&self) -> (r: Result<(), ConfigError>) {
        Ok(())
    }
}

/// The store that is taken where none is configured.
pub fn default_store_path() -> (r: String)
    ensures
        r@ == "/nix/store"@,
{
    "/nix/store".to_owned()
}

/// The directories of roots that are taken where none is configured.
pub fn default_auto_gcroots_dirs() -> (r: Vec<String>)
    ensures
        r@.len() == 1,
        r@[0]@ == "/nix/var/nix/gcroots/auto"@,
{
    let mut dirs: Vec<String> = Vec::new();
    dirs.push("/nix/var/nix/gcroots/auto".to_owned());
    dirs
}

/// The prefixes that a temporary-root policy ignores where none is
/// configured: the profiles of the system and of root.
pub fn default_temporary_root_ignored_prefixes() -> (r: Vec<String>)
    ensures
        r@.len() == 1,
        r@[0]@ == "/nix/var/nix/profiles"@,
{
    let mut prefixes: Vec<String> = Vec::new();
    prefixes.push("/nix/var/nix/profiles".to_owned());
    prefixes
}

/// The prefixes below a home directory that a temporary-root policy ignores
/// where none is configured.
pub fn default_temporary_root_ignored_prefixes_in_home() -> (r: Vec<String>)
    ensures
        r@.len() == 3,
        r@[0]@ == ".local/state/nix/profiles"@,
        r@[1]@ == ".local/state/home-manager/gcroots"@,
        r@[2]@ == ".cache/nix/flake-registry.json"@,
{
    let mut prefixes: Vec<String> = Vec::new();
    prefixes.push(".local/state/nix/profiles".to_owned());
    prefixes.push(".local/state/home-manager/gcroots".to_owned());
    prefixes.push(".cache/nix/flake-registry.json".to_owned());
    prefixes
}

/// A policy takes part in the run unless it is told not to.
pub fn default_policy_enable() -> (r: bool)
    ensures
        r,
{
    true
}

/// The priority of a temporary-root policy that names none.
pub fn default_temporary_policy_priority_default() -> (r: usize)
    ensures
        r == 100,
{
    100
}

/// The current system is kept unless the policy says otherwise.
pub fn default_keep_current_system() -> (r: bool)
    ensures
        r,
{
    true
}

/// The booted system is kept unless the policy says otherwise.
pub fn default_keep_booted_system() -> (r: bool)
    ensures
        r,
{
    true
}

/// The configuration file of the whole system, where `exists` tells that
/// there is one.
pub fn global_config_file(exists: bool) -> (r: Option<String>)
    ensures
        r is Some == exists,
        r matches Some(path) ==> path@ == "/etc/angrr/config.toml"@,
{
    if exists {
        Some("/etc/angrr/config.toml".to_owned())
    } else {
        None
    }
}

} // verus!
