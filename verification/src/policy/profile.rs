//! Which generations of a profile are kept.

use crate::config::ProfileConfig;
use crate::current::Current;
use crate::error::RunError;
use crate::paths::{file_name, path_eq, path_file_name, same_path};
use crate::gc_root::GcRoot;
use crate::profile::{newest_first, Generation, Profile};
use vstd::prelude::*;

verus! {

/// A named rule over the generations of profiles.
#[derive(Debug)]
pub struct ProfilePolicy {
    /// Name of the policy.
    pub name: String,
    /// How the policy chooses.
    pub config: ProfileConfig,
}

/// Whether the link of `generation`, which is the target of its root, has the
/// file name of `current_generation`.
pub open spec fn is_current(current_generation: Seq<char>, generation: Generation) -> bool {
    path_file_name(generation.root.path@) is Some && path_file_name(generation.root.path@)
        == path_file_name(current_generation)
}

/// Whether the generation at `i` is the first that is the current one.
pub open spec fn first_current(
    generations: Seq<Generation>,
    current_generation: Seq<char>,
    i: int,
) -> bool {
    &&& 0 <= i < generations.len()
    &&& is_current(current_generation, generations[i])
    &&& forall|j: int| 0 <= j < i ==> !is_current(current_generation, #[trigger] generations[j])
}

/// Whether the generation at `i` is the first whose store path is `system`.
pub open spec fn first_system(generations: Seq<Generation>, system: Seq<char>, i: int) -> bool {
    &&& 0 <= i < generations.len()
    &&& path_eq(generations[i].root.store_path@, system)
    &&& forall|j: int| 0 <= j < i ==> !path_eq((#[trigger] generations[j]).root.store_path@, system)
}

/// Kept as the booted system: the rule is on, and the generation at `i` is the
/// first whose store path is the target of the link of the booted system.
pub open spec fn kept_as_booted(
    config: ProfileConfig,
    generations: Seq<Generation>,
    current: Current,
    i: int,
) -> bool {
    config.keep_booted_system && current.booted_system is Some && first_system(
        generations,
        current.booted_system->0@,
        i,
    )
}

/// Kept as the current system, in the same way.
pub open spec fn kept_as_current_system(
    config: ProfileConfig,
    generations: Seq<Generation>,
    current: Current,
    i: int,
) -> bool {
    config.keep_current_system && current.current_system is Some && first_system(
        generations,
        current.current_system->0@,
        i,
    )
}

/// Kept for its age: the rule is set, and the generation at `i` is at most as
/// old as the rule allows.
pub open spec fn kept_since(config: ProfileConfig, generations: Seq<Generation>, i: int) -> bool {
    config.keep_since is Some && 0 <= i < generations.len() && generations[i].root.age.nanos
        <= config.keep_since->0.nanos
}

/// Kept as one of the newest: the rule is set, and fewer generations than it
/// asks for stand before the one at `i`.
pub open spec fn kept_latest(config: ProfileConfig, generations: Seq<Generation>, i: int) -> bool {
    config.keep_latest_n is Some && 0 <= i < generations.len() && i < config.keep_latest_n->0
}

/// Whether the policy keeps the generation at `i`: one ground is enough.
pub open spec fn keeps(
    config: ProfileConfig,
    generations: Seq<Generation>,
    current_generation: Seq<char>,
    current: Current,
    i: int,
) -> bool {
    ||| first_current(generations, current_generation, i)
    ||| kept_as_booted(config, generations, current, i)
    ||| kept_as_current_system(config, generations, current, i)
    ||| kept_since(config, generations, i)
    ||| kept_latest(config, generations, i)
}

/// Whether `more` has every rule in force that `less` has, each at least as
/// generous.
pub open spec fn at_least_as_generous(less: ProfileConfig, more: ProfileConfig) -> bool {
    &&& less.keep_booted_system ==> more.keep_booted_system
    &&& less.keep_current_system ==> more.keep_current_system
    &&& less.keep_since is Some ==> more.keep_since is Some && less.keep_since->0.nanos
        <= more.keep_since->0.nanos
    &&& less.keep_latest_n is Some ==> more.keep_latest_n is Some && less.keep_latest_n->0
        <= more.keep_latest_n->0
}

/// Putting a further rule in force, or making one more generous, never drops
/// a generation that was kept: what the lesser rules keep of a profile, the
/// greater rules keep too.
pub proof fn lemma_keeps_monotonic(
    less: ProfileConfig,
    more: ProfileConfig,
    generations: Seq<Generation>,
    current_generation: Seq<char>,
    current: Current,
    i: int,
)
    requires
        at_least_as_generous(less, more),
        keeps(less, generations, current_generation, current, i),
    ensures
        keeps(more, generations, current_generation, current, i),
{
}

/// Whether the generation at `i` is kept on a ground other than being one of
/// the newest.
pub open spec fn kept_otherwise(
    config: ProfileConfig,
    generations: Seq<Generation>,
    current_generation: Seq<char>,
    current: Current,
    i: int,
) -> bool {
    ||| first_current(generations, current_generation, i)
    ||| kept_as_booted(config, generations, current, i)
    ||| kept_as_current_system(config, generations, current, i)
    ||| kept_since(config, generations, i)
}

/// How many entries of `keep` are set.
pub open spec fn count_kept(keep: Seq<bool>) -> nat
    decreases keep.len(),
{
    if keep.len() == 0 {
        0
    } else {
        count_kept(keep.drop_last()) + if keep.last() {
            1nat
        } else {
            0nat
        }
    }
}

/// Where exactly the first `n` entries are set, `n` or all of them are.
pub proof fn lemma_count_of_leading(keep: Seq<bool>, n: nat)
    requires
        forall|i: int| 0 <= i < keep.len() ==> keep[i] == (i < n),
    ensures
        count_kept(keep) == if n <= keep.len() {
            n
        } else {
            keep.len()
        },
    decreases keep.len(),
{
    if keep.len() > 0 {
        let shorter = keep.drop_last();
        assert forall|i: int| 0 <= i < shorter.len() implies shorter[i] == (i < n) by {
            assert(shorter[i] == keep[i]);
        }
        lemma_count_of_leading(shorter, n);
    }
}

/// Where `keep_latest_n` is `n` and no other ground keeps a generation
/// outside the newest `n`, the policy keeps the first `n` generations of the
/// profile, or all of them where there are fewer; none of those kept is older
/// than one that is not.
pub proof fn lemma_keep_latest_n(
    config: ProfileConfig,
    generations: Seq<Generation>,
    current_generation: Seq<char>,
    current: Current,
    keep: Seq<bool>,
)
    requires
        newest_first(generations),
        config.keep_latest_n is Some,
        keep.len() == generations.len(),
        forall|i: int|
            0 <= i < keep.len() ==> keep[i] == keeps(
                config,
                generations,
                current_generation,
                current,
                i,
            ),
        forall|i: int|
            0 <= i < keep.len() && kept_otherwise(
                config,
                generations,
                current_generation,
                current,
                i,
            ) ==> i < config.keep_latest_n->0,
    ensures
        forall|i: int| 0 <= i < keep.len() ==> keep[i] == (i < config.keep_latest_n->0),
        count_kept(keep) == if config.keep_latest_n->0 <= keep.len() {
            config.keep_latest_n->0 as nat
        } else {
            keep.len()
        },
        forall|i: int, j: int|
            0 <= i < keep.len() && 0 <= j < keep.len() && keep[i] && !keep[j]
                ==> generations[i].number >= generations[j].number,
{
    let n = config.keep_latest_n->0 as nat;
    assert forall|i: int| 0 <= i < keep.len() implies keep[i] == (i < n) by {
        assert(keep[i] == keeps(config, generations, current_generation, current, i));
        if i < n {
            assert(kept_latest(config, generations, i));
        } else {
            assert(!kept_otherwise(config, generations, current_generation, current, i));
        }
    }
    lemma_count_of_leading(keep, n);
}

/// At most one generation is the first that is the current one.
pub proof fn lemma_first_current_unique(
    generations: Seq<Generation>,
    current_generation: Seq<char>,
    a: int,
    b: int,
)
    requires
        first_current(generations, current_generation, a),
        first_current(generations, current_generation, b),
    ensures
        a == b,
{
    if a < b {
        assert(!is_current(current_generation, generations[a]));
    }
    if b < a {
        assert(!is_current(current_generation, generations[b]));
    }
}

/// At most one generation is the first whose store path is `system`.
pub proof fn lemma_first_system_unique(
    generations: Seq<Generation>,
    system: Seq<char>,
    a: int,
    b: int,
)
    requires
        first_system(generations, system, a),
        first_system(generations, system, b),
    ensures
        a == b,
{
    if a < b {
        assert(!path_eq(generations[a].root.store_path@, system));
    }
    if b < a {
        assert(!path_eq(generations[b].root.store_path@, system));
    }
}

/// The roots of the generations among the first `n` that the policy does not
/// keep, in the order of the profile.
pub open spec fn unkept_roots(
    config: ProfileConfig,
    generations: Seq<Generation>,
    current_generation: Seq<char>,
    current: Current,
    n: nat,
) -> Seq<GcRoot>
    decreases n,
{
    if n == 0 {
        Seq::empty()
    } else {
        let before = unkept_roots(config, generations, current_generation, current, (n - 1) as nat);
        if keeps(config, generations, current_generation, current, n - 1) {
            before
        } else {
            before.push(generations[n - 1].root)
        }
    }
}

/// The candidates of a profile are the roots of the generations that its
/// policy does not keep, and no others.
pub proof fn lemma_unkept_roots(
    config: ProfileConfig,
    generations: Seq<Generation>,
    current_generation: Seq<char>,
    current: Current,
    n: nat,
)
    requires
        n <= generations.len(),
    ensures
        forall|i: int|
            0 <= i < n && !keeps(config, generations, current_generation, current, i)
                ==> unkept_roots(config, generations, current_generation, current, n).contains(
                (#[trigger] generations[i]).root,
            ),
        forall|k: int|
            0 <= k < unkept_roots(config, generations, current_generation, current, n).len()
                ==> exists|i: int|
                0 <= i < n && !keeps(config, generations, current_generation, current, i)
                    && (#[trigger] generations[i]).root == #[trigger] unkept_roots(
                    config,
                    generations,
                    current_generation,
                    current,
                    n,
                )[k],
        unkept_roots(config, generations, current_generation, current, n).len() <= n,
    decreases n,
{
    if n > 0 {
        let before = unkept_roots(config, generations, current_generation, current, (n - 1) as nat);
        let after = unkept_roots(config, generations, current_generation, current, n);
        lemma_unkept_roots(config, generations, current_generation, current, (n - 1) as nat);
        let last_kept = keeps(config, generations, current_generation, current, n - 1);
        assert forall|i: int|
            0 <= i < n && !keeps(
                config,
                generations,
                current_generation,
                current,
                i,
            ) implies after.contains((#[trigger] generations[i]).root) by {
            if i < n - 1 {
                assert(before.contains(generations[i].root));
                let k = choose|k: int| 0 <= k < before.len() && before[k] == generations[i].root;
                assert(after[k] == generations[i].root);
            } else {
                assert(after[after.len() - 1] == generations[i].root);
            }
        }
        assert forall|k: int| 0 <= k < after.len() implies exists|i: int|
            0 <= i < n && !keeps(config, generations, current_generation, current, i) && (
            #[trigger] generations[i]).root == #[trigger] after[k] by {
            if k < before.len() {
                let i = choose|i: int|
                    0 <= i < n - 1 && !keeps(
                        config,
                        generations,
                        current_generation,
                        current,
                        i,
                    ) && (#[trigger] generations[i]).root == before[k];
                assert(generations[i].root == after[k]);
            } else {
                assert(generations[n - 1].root == after[k]);
            }
        }
    }
}

/// Whether `keep` marks the generation at `i`.
pub open spec fn marked(keep: Seq<bool>, i: int) -> bool {
    0 <= i < keep.len() && keep[i]
}

/// The roots of the generations among the first `n` that `keep` does not
/// mark, in order.
pub open spec fn unmarked_roots(generations: Seq<Generation>, keep: Seq<bool>, n: nat) -> Seq<
    GcRoot,
>
    decreases n,
{
    if n == 0 {
        Seq::empty()
    } else if marked(keep, n - 1) {
        unmarked_roots(generations, keep, (n - 1) as nat)
    } else {
        unmarked_roots(generations, keep, (n - 1) as nat).push(generations[n - 1].root)
    }
}

/// Where `keep` marks what the policy keeps, the unmarked roots are those
/// that the policy does not keep.
pub proof fn lemma_unmarked_are_unkept(
    config: ProfileConfig,
    generations: Seq<Generation>,
    current_generation: Seq<char>,
    current: Current,
    keep: Seq<bool>,
    n: nat,
)
    requires
        n <= keep.len(),
        forall|i: int|
            0 <= i < keep.len() ==> keep[i] == keeps(
                config,
                generations,
                current_generation,
                current,
                i,
            ),
    ensures
        unmarked_roots(generations, keep, n) == unkept_roots(
            config,
            generations,
            current_generation,
            current,
            n,
        ),
    decreases n,
{
    if n > 0 {
        lemma_unmarked_are_unkept(
            config,
            generations,
            current_generation,
            current,
            keep,
            (n - 1) as nat,
        );
    }
}

/// The roots of the generations that `keep` does not mark, in order.
pub fn unkept(generations: &Vec<Generation>, keep: &Vec<bool>) -> (r: Vec<GcRoot>)
    ensures
        r@ == unmarked_roots(generations@, keep@, generations@.len()),
        r@.len() <= generations@.len(),
{
    let mut roots: Vec<GcRoot> = Vec::new();
    let mut i: usize = 0;
    while i < generations.len()
        invariant
            i <= generations.len(),
            roots@.len() <= i,
            roots@ == unmarked_roots(generations@, keep@, i as nat),
        decreases generations.len() - i,
    {
        if !(i < keep.len() && keep[i]) {
            roots.push(generations[i].root.clone());
        }
        i += 1;
    }
    roots
}

/// Why the policy cannot judge, if it cannot: a link that a rule in force
/// needs could not be read. The booted system is asked for first.
pub open spec fn judging_failure(config: ProfileConfig, current: Current) -> Option<RunError> {
    if config.keep_booted_system && current.booted_system is None {
        Some(RunError::BootedSystem)
    } else if config.keep_current_system && current.current_system is None {
        Some(RunError::CurrentSystem)
    } else {
        None
    }
}

/// Finds the first generation that is the current one.
fn find_current(profile: &Profile) -> (r: Option<usize>)
    ensures
        r matches Some(i) ==> first_current(
            profile.generations@,
            profile.current_generation@,
            i as int,
        ),
        r is None ==> forall|i: int|
            !first_current(profile.generations@, profile.current_generation@, i),
{
    let wanted = match file_name(profile.current_generation.as_str()) {
        Some(name) => name,
        None => {
            return None;
        },
    };
    let mut i: usize = 0;
    while i < profile.generations.len()
        invariant
            i <= profile.generations.len(),
            path_file_name(profile.current_generation@) == Some(wanted@),
            forall|j: int|
                0 <= j < i ==> !is_current(
                    profile.current_generation@,
                    #[trigger] profile.generations@[j],
                ),
        decreases profile.generations.len() - i,
    {
        match file_name(profile.generations[i].root.path.as_str()) {
            Some(name) => {
                if name == wanted {
                    return Some(i);
                }
            },
            None => {},
        }
        i += 1;
    }
    None
}

/// Finds the first generation whose store path is `system`.
fn find_system(generations: &Vec<Generation>, system: &str) -> (r: Option<usize>)
    ensures
        r matches Some(i) ==> first_system(generations@, system@, i as int),
        r is None ==> forall|i: int| !first_system(generations@, system@, i),
{
    let mut i: usize = 0;
    while i < generations.len()
        invariant
            i <= generations.len(),
            forall|j: int|
                0 <= j < i ==> !path_eq((#[trigger] generations@[j]).root.store_path@, system@),
        decreases generations.len() - i,
    {
        if same_path(generations[i].root.store_path.as_str(), system) {
            return Some(i);
        }
        i += 1;
    }
    None
}

/// Whether `found` names the position `i`.
fn is_at(found: &Option<usize>, i: usize) -> (r: bool)
    ensures
        r == (*found == Some(i)),
{
    match found {
        Some(at) => *at == i,
        None => false,
    }
}

impl ProfilePolicy {
    /// The policy named `name` that chooses as `config` says.
    pub fn new(name: String, config: ProfileConfig) -> (policy: ProfilePolicy)
        ensures
            policy.name == name,
            policy.config == config,
    {
        ProfilePolicy { name, config }
    }

    /// Decides for each generation of `profile` whether it is kept. The
    /// result has one entry for each generation, in the order of the profile.
    pub fn run(&self, profile: &Profile, current: &Current) -> (r: Result<Vec<bool>, RunError>)
        ensures
            match judging_failure(self.config, *current) {
                Some(e) => r matches Err(failure) && failure == e,
                None => r matches Ok(keep) && keep@.len() == profile.generations@.len()
                    && forall|i: int|
                    0 <= i < keep@.len() ==> keep@[i] == keeps(
                        self.config,
                        profile.generations@,
                        profile.current_generation@,
                        *current,
                        i,
                    ),
            },
    {
        let current_at = find_current(profile);
        let mut booted_at: Option<usize> = None;
        if self.config.keep_booted_system {
            match &current.booted_system {
                Some(system) => {
                    booted_at = find_system(&profile.generations, system.as_str());
                },
                None => {
                    return Err(RunError::BootedSystem);
                },
            }
        }
        let mut system_at: Option<usize> = None;
        if self.config.keep_current_system {
            match &current.current_system {
                Some(system) => {
                    system_at = find_system(&profile.generations, system.as_str());
                },
                None => {
                    return Err(RunError::CurrentSystem);
                },
            }
        }
        let mut keep: Vec<bool> = Vec::new();
        let mut i: usize = 0;
        let ghost generations = profile.generations@;
        let ghost link = profile.current_generation@;
        while i < profile.generations.len()
            invariant
                i <= profile.generations.len(),
                keep@.len() == i,
                generations == profile.generations@,
                link == profile.current_generation@,
                judging_failure(self.config, *current) is None,
                current_at matches Some(at) ==> first_current(generations, link, at as int),
                current_at is None ==> forall|k: int| !first_current(generations, link, k),
                booted_at matches Some(at) ==> kept_as_booted(
                    self.config,
                    generations,
                    *current,
                    at as int,
                ),
                booted_at is None ==> forall|k: int|
                    !kept_as_booted(self.config, generations, *current, k),
                system_at matches Some(at) ==> kept_as_current_system(
                    self.config,
                    generations,
                    *current,
                    at as int,
                ),
                system_at is None ==> forall|k: int|
                    !kept_as_current_system(self.config, generations, *current, k),
                forall|k: int|
                    0 <= k < i ==> keep@[k] == keeps(self.config, generations, link, *current, k),
            decreases profile.generations.len() - i,
        {
            let by_age = match self.config.keep_since {
                Some(limit) => profile.generations[i].root.age.nanos <= limit.nanos,
                None => false,
            };
            let by_count = match self.config.keep_latest_n {
                Some(n) => i < n,
                None => false,
            };
            let kept = is_at(&current_at, i) || is_at(&booted_at, i) || is_at(&system_at, i)
                || by_age || by_count;
            proof {
                assert(by_age == kept_since(self.config, generations, i as int));
                assert(by_count == kept_latest(self.config, generations, i as int));
                assert((current_at == Some(i)) == first_current(generations, link, i as int)) by {
                    if current_at is Some && first_current(generations, link, i as int) {
                        lemma_first_current_unique(
                            generations,
                            link,
                            current_at->0 as int,
                            i as int,
                        );
                    }
                }
                assert((booted_at == Some(i)) == kept_as_booted(
                    self.config,
                    generations,
                    *current,
                    i as int,
                )) by {
                    if booted_at is Some && kept_as_booted(
                        self.config,
                        generations,
                        *current,
                        i as int,
                    ) {
                        lemma_first_system_unique(
                            generations,
                            current.booted_system->0@,
                            booted_at->0 as int,
                            i as int,
                        );
                    }
                }
                assert((system_at == Some(i)) == kept_as_current_system(
                    self.config,
                    generations,
                    *current,
                    i as int,
                )) by {
                    if system_at is Some && kept_as_current_system(
                        self.config,
                        generations,
                        *current,
                        i as int,
                    ) {
                        lemma_first_system_unique(
                            generations,
                            current.current_system->0@,
                            system_at->0 as int,
                            i as int,
                        );
                    }
                }
            }
            keep.push(kept);
            i += 1;
        }
        Ok(keep)
    }
}

} // verus!
