//! Profiles and their generations.

use crate::error::RunError;
use crate::gc_root::{GcRoot, Metadata, StatOutcome};
use crate::paths::{file_name, path_eq, path_file_name, same_path};
use crate::text::{all_digits, chars_of, decimal_value, is_digit, parse_decimal};
use vstd::prelude::*;

verus! {

/// One numbered generation of a profile.
#[derive(Debug)]
pub struct Generation {
    /// Number of the generation; larger is newer.
    pub number: usize,
    /// The root whose target is the link of the generation.
    pub root: GcRoot,
}

impl Clone for Generation {
    fn clone(&self) -> (r: Self)
        ensures
            r == *self,
    {
        Generation { number: self.number, root: self.root.clone() }
    }
}

/// A profile: a link to its current generation, and the generations found
/// beside it.
#[derive(Debug)]
pub struct Profile {
    /// Path of the profile.
    pub path: String,
    /// Metadata of the profile's own link.
    pub path_metadata: Metadata,
    /// Target of the profile's link.
    pub current_generation: String,
    /// All generations, newest first.
    pub generations: Vec<Generation>,
}

/// No generation stands before one with a larger number.
pub open spec fn newest_first(generations: Seq<Generation>) -> bool {
    forall|i: int, j: int|
        0 <= i <= j < generations.len() ==> generations[i].number >= generations[j].number
}

impl Profile {
    /// The generations are ordered by number, newest first.
    pub open spec fn wf(&self) -> bool {
        newest_first(self.generations@)
    }
}

/// What the name of a directory entry says about a profile.
#[derive(Clone, Copy, Debug, PartialEq, Eq, Structural)]
pub enum GenerationName {
    /// The entry is no generation of the profile.
    Foreign,
    /// The entry is the generation with this number.
    Number(usize),
    /// The entry is a generation whose number does not fit.
    TooLarge,
}

/// The ending of the name of every generation link.
pub open spec fn link_suffix() -> Seq<char> {
    seq!['-', 'l', 'i', 'n', 'k']
}

/// The digits of the generation number in `file_name`, where `file_name` is
/// the name of the profile, a hyphen, one or more decimal digits and `-link`.
/// A profile whose name holds a line feed has no generations.
pub open spec fn generation_digits(file_name: Seq<char>, profile_name: Seq<char>) -> Option<
    Seq<char>,
> {
    let start: int = profile_name.len() as int + 1;
    let end: int = file_name.len() - 5;
    if start < end && file_name.subrange(0, profile_name.len() as int) == profile_name
        && file_name[profile_name.len() as int] == '-' && file_name.subrange(
        end,
        file_name.len() as int,
    ) == link_suffix() && all_digits(file_name.subrange(start, end)) && !profile_name.contains(
        '\n',
    ) {
        Some(file_name.subrange(start, end))
    } else {
        None
    }
}

/// What `file_name` says about the profile named `profile_name`.
pub open spec fn spec_generation_name(
    file_name: Seq<char>,
    profile_name: Seq<char>,
) -> GenerationName {
    match generation_digits(file_name, profile_name) {
        None => GenerationName::Foreign,
        Some(digits) => if decimal_value(digits) <= usize::MAX {
            GenerationName::Number(decimal_value(digits) as usize)
        } else {
            GenerationName::TooLarge
        },
    }
}

/// The name of a generation link is the name of its profile, a hyphen, the
/// digits of its number and `-link`, and nothing else is one.
pub proof fn lemma_generation_digits(
    file_name: Seq<char>,
    profile_name: Seq<char>,
    digits: Seq<char>,
)
    ensures
        generation_digits(file_name, profile_name) == Some(digits) <==> (file_name
            == profile_name + seq!['-'] + digits + link_suffix() && digits.len() > 0 && all_digits(
            digits,
        ) && !profile_name.contains('\n')),
{
    let whole = profile_name + seq!['-'] + digits + link_suffix();
    let n = profile_name.len() as int;
    if generation_digits(file_name, profile_name) == Some(digits) {
        assert(file_name =~= whole);
    }
    if file_name == whole && digits.len() > 0 && all_digits(digits) && !profile_name.contains(
        '\n',
    ) {
        assert(whole.subrange(0, n) =~= profile_name);
        assert(whole[n] == '-');
        assert(whole.subrange(whole.len() - 5, whole.len() as int) =~= link_suffix());
        assert(whole.subrange(n + 1, whole.len() - 5) =~= digits);
    }
}

/// Reads the name of a directory entry against the name of a profile.
pub fn generation_name(file_name: &str, profile_name: &str) -> (r: GenerationName)
    ensures
        r == spec_generation_name(file_name@, profile_name@),
{
    let file = chars_of(file_name);
    let profile = chars_of(profile_name);
    let n = profile.len();
    if file.len() < 7 || file.len() - 7 < n {
        return GenerationName::Foreign;
    }
    let end: usize = file.len() - 5;
    let mut i: usize = 0;
    while i < n
        invariant
            i <= n,
            n == profile@.len(),
            n + 7 <= file@.len(),
            file@ == file_name@,
            profile@ == profile_name@,
            file@.subrange(0, i as int) == profile@.subrange(0, i as int),
            !profile@.subrange(0, i as int).contains('\n'),
        decreases n - i,
    {
        if file[i] != profile[i] {
            assert(file@.subrange(0, n as int)[i as int] != profile@[i as int]);
            return GenerationName::Foreign;
        }
        if profile[i] == '\n' {
            assert(profile@.contains('\n'));
            return GenerationName::Foreign;
        }
        proof {
            let longer = profile@.subrange(0, i + 1);
            assert(longer =~= profile@.subrange(0, i as int).push(profile@[i as int]));
            assert(file@.subrange(0, i + 1) =~= file@.subrange(0, i as int).push(file@[i as int]));
            if longer.contains('\n') {
                let k = choose|k: int| 0 <= k < longer.len() && longer[k] == '\n';
                if k < i {
                    assert(profile@.subrange(0, i as int)[k] == '\n');
                }
            }
        }
        i += 1;
    }
    assert(profile@.subrange(0, n as int) == profile@);
    if file[n] != '-' {
        return GenerationName::Foreign;
    }
    if file[end] != '-' || file[end + 1] != 'l' || file[end + 2] != 'i' || file[end + 3] != 'n'
        || file[end + 4] != 'k' {
        assert(file@.subrange(end as int, file@.len() as int) != link_suffix()) by {
            let tail = file@.subrange(end as int, file@.len() as int);
            assert(tail[0] == file@[end as int]);
            assert(tail[1] == file@[end + 1]);
            assert(tail[2] == file@[end + 2]);
            assert(tail[3] == file@[end + 3]);
            assert(tail[4] == file@[end + 4]);
        }
        return GenerationName::Foreign;
    }
    assert(file@.subrange(end as int, file@.len() as int) =~= link_suffix());
    let mut digits: Vec<char> = Vec::new();
    let mut j: usize = n + 1;
    while j < end
        invariant
            n + 1 <= j <= end,
            end == file@.len() - 5,
            n == profile@.len(),
            file@ == file_name@,
            profile@ == profile_name@,
            digits@ == file@.subrange(n + 1, j as int),
            all_digits(digits@),
        decreases end - j,
    {
        let c: char = file[j];
        if !('0' <= c && c <= '9') {
            assert(!is_digit(file@.subrange(n + 1, end as int)[j - (n + 1)]));
            return GenerationName::Foreign;
        }
        digits.push(c);
        assert(file@.subrange(n + 1, j + 1) =~= file@.subrange(n + 1, j as int).push(c));
        j += 1;
    }
    match parse_decimal(&digits) {
        Some(number) => GenerationName::Number(number),
        None => GenerationName::TooLarge,
    }
}

/// Where a generation numbered `number` enters `generations`: right behind
/// the last generation that is at least as new.
pub open spec fn entry_place(generations: Seq<Generation>, number: usize) -> int
    decreases generations.len(),
{
    if generations.len() == 0 {
        0
    } else if generations.last().number >= number {
        generations.len() as int
    } else {
        entry_place(generations.drop_last(), number)
    }
}

/// `generations` with `generation` entered at its place.
pub open spec fn with_generation(
    generations: Seq<Generation>,
    generation: Generation,
) -> Seq<Generation> {
    generations.insert(entry_place(generations, generation.number), generation)
}

/// The place of entry lies inside the sequence; every generation from it on is
/// older than the one that enters, and the one before it is not.
pub proof fn lemma_entry_place(generations: Seq<Generation>, number: usize)
    ensures
        0 <= entry_place(generations, number) <= generations.len(),
        forall|i: int|
            entry_place(generations, number) <= i < generations.len()
                ==> generations[i].number < number,
        entry_place(generations, number) > 0 ==> generations[entry_place(generations, number)
            - 1].number >= number,
    decreases generations.len(),
{
    if generations.len() > 0 && generations.last().number < number {
        let shorter = generations.drop_last();
        lemma_entry_place(shorter, number);
        assert forall|i: int|
            entry_place(generations, number) <= i < generations.len() implies generations[i].number
            < number by {
            if i < shorter.len() {
                assert(shorter[i] == generations[i]);
            }
        }
        if entry_place(generations, number) > 0 {
            assert(shorter[entry_place(generations, number) - 1] == generations[entry_place(
                generations,
                number,
            ) - 1]);
        }
    }
}

/// Entering a generation at its place keeps the newest first, and the
/// generations that were there keep their order.
pub proof fn lemma_with_generation_newest_first(
    generations: Seq<Generation>,
    generation: Generation,
)
    requires
        newest_first(generations),
    ensures
        newest_first(with_generation(generations, generation)),
        with_generation(generations, generation).len() == generations.len() + 1,
        with_generation(generations, generation).remove(
            entry_place(generations, generation.number),
        ) == generations,
{
    lemma_entry_place(generations, generation.number);
    let place = entry_place(generations, generation.number);
    let longer = with_generation(generations, generation);
    assert(longer.remove(place) =~= generations);
    assert forall|i: int, j: int| 0 <= i <= j < longer.len() implies longer[i].number
        >= longer[j].number by {
        if i < place {
            assert(longer[i] == generations[i]);
            if j < place {
                assert(longer[j] == generations[j]);
            } else if j == place {
                assert(generations[i].number >= generations[place - 1].number);
            } else {
                assert(longer[j] == generations[j - 1]);
            }
        } else if i == place {
            if j > place {
                assert(longer[j] == generations[j - 1]);
            }
        } else {
            assert(longer[i] == generations[i - 1]);
            assert(longer[j] == generations[j - 1]);
        }
    }
}

/// Enters `generation` into `generations` at its place.
pub fn add_generation(generations: &mut Vec<Generation>, generation: Generation)
    ensures
        final(generations)@ == with_generation(old(generations)@, generation),
{
    let mut place: usize = generations.len();
    assert(generations@.subrange(0, place as int) == generations@);
    while place > 0 && generations[place - 1].number < generation.number
        invariant
            place <= generations.len(),
            entry_place(generations@, generation.number) == entry_place(
                generations@.subrange(0, place as int),
                generation.number,
            ),
        decreases place,
    {
        assert(generations@.subrange(0, place as int).drop_last() == generations@.subrange(
            0,
            place - 1,
        ));
        place -= 1;
    }
    generations.insert(place, generation);
}

/// One entry of the directory that holds a profile.
#[derive(Debug)]
pub struct DirEntry {
    /// Path of the entry.
    pub path: String,
    /// Final component of that path.
    pub file_name: String,
}

/// What listing the directory of a profile gave.
#[derive(Debug)]
pub enum Listing {
    /// The path of the profile names no directory above it.
    NoParent,
    /// The directory could not be opened.
    Unreadable,
    /// The entries in the order of the listing; `None` stands for an entry
    /// that could not be read.
    Entries(Vec<Option<DirEntry>>),
}

/// What was observed of a profile on disk.
#[derive(Debug)]
pub struct ProfileProbe {
    /// Metadata of the profile's own link.
    pub metadata: StatOutcome,
    /// Target of the profile's link; `None` when it could not be read.
    pub current_generation: Option<String>,
    /// The directory that holds the profile.
    pub listing: Listing,
}

/// Position of the last root whose target is `path`.
pub open spec fn last_root_at(roots: Seq<GcRoot>, path: Seq<char>) -> Option<int>
    decreases roots.len(),
{
    if roots.len() == 0 {
        None
    } else if path_eq(roots.last().path@, path) {
        Some(roots.len() - 1)
    } else {
        last_root_at(roots.drop_last(), path)
    }
}

/// Finds the last root whose target is `path`.
pub fn find_root(roots: &Vec<GcRoot>, path: &str) -> (r: Option<usize>)
    ensures
        r is Some == last_root_at(roots@, path@) is Some,
        r matches Some(at) ==> last_root_at(roots@, path@) == Some(at as int) && at < roots.len()
            && path_eq(roots[at as int].path@, path@),
        forall|i: int|
            0 <= i < roots.len() && path_eq(#[trigger] roots[i].path@, path@) ==> r is Some && i
                <= r->0,
{
    let mut at: usize = roots.len();
    assert(roots@.subrange(0, at as int) == roots@);
    while at > 0
        invariant
            at <= roots.len(),
            last_root_at(roots@, path@) == last_root_at(roots@.subrange(0, at as int), path@),
            forall|i: int| at <= i < roots.len() ==> !path_eq(#[trigger] roots[i].path@, path@),
        decreases at,
    {
        assert(roots@.subrange(0, at as int).drop_last() == roots@.subrange(0, at - 1));
        assert(roots@.subrange(0, at as int).last() == roots@[at - 1]);
        if same_path(roots[at - 1].path.as_str(), path) {
            return Some(at - 1);
        }
        at -= 1;
    }
    None
}

/// The generations that the entries of the directory give to the profile
/// named `profile_name`: an entry counts when a root points at it and its
/// name is that of a generation of the profile. The first entry that could
/// not be read, or whose number does not fit, ends the gathering.
pub open spec fn gathered(
    entries: Seq<Option<DirEntry>>,
    roots: Seq<GcRoot>,
    profile_name: Seq<char>,
) -> Result<Seq<Generation>, RunError>
    decreases entries.len(),
{
    if entries.len() == 0 {
        Ok(Seq::empty())
    } else {
        let index = (entries.len() - 1) as usize;
        match gathered(entries.drop_last(), roots, profile_name) {
            Err(e) => Err(e),
            Ok(generations) => match entries.last() {
                None => Err(RunError::ProfileEntry { index }),
                Some(entry) => match last_root_at(roots, entry.path@) {
                    None => Ok(generations),
                    Some(at) => match spec_generation_name(entry.file_name@, profile_name) {
                        GenerationName::Foreign => Ok(generations),
                        GenerationName::TooLarge => Err(RunError::GenerationNumber { index }),
                        GenerationName::Number(number) => Ok(
                            with_generation(generations, Generation { number, root: roots[at] }),
                        ),
                    },
                },
            },
        }
    }
}

/// What is gathered is ordered, newest first.
pub proof fn lemma_gathered_newest_first(
    entries: Seq<Option<DirEntry>>,
    roots: Seq<GcRoot>,
    profile_name: Seq<char>,
)
    ensures
        gathered(entries, roots, profile_name) matches Ok(generations) ==> newest_first(
            generations,
        ),
    decreases entries.len(),
{
    if entries.len() > 0 {
        lemma_gathered_newest_first(entries.drop_last(), roots, profile_name);
        match gathered(entries.drop_last(), roots, profile_name) {
            Ok(generations) => {
                match entries.last() {
                    Some(entry) => match last_root_at(roots, entry.path@) {
                        Some(at) => match spec_generation_name(entry.file_name@, profile_name) {
                            GenerationName::Number(number) => {
                                lemma_with_generation_newest_first(
                                    generations,
                                    Generation { number, root: roots[at] },
                                );
                            },
                            _ => {},
                        },
                        None => {},
                    },
                    None => {},
                }
            },
            Err(_) => {},
        }
    }
}

/// The position that `last_root_at` names is a position of `roots`, and the
/// target of the root there is `path`.
pub proof fn lemma_last_root_at(roots: Seq<GcRoot>, path: Seq<char>)
    ensures
        last_root_at(roots, path) matches Some(at) ==> 0 <= at < roots.len() && path_eq(
            roots[at].path@,
            path,
        ),
    decreases roots.len(),
{
    if roots.len() > 0 && !path_eq(roots.last().path@, path) {
        lemma_last_root_at(roots.drop_last(), path);
        if last_root_at(roots, path) is Some {
            let at = last_root_at(roots, path)->0;
            assert(roots.drop_last()[at] == roots[at]);
        }
    }
}

/// Whether the root of every generation is one of `roots`.
pub open spec fn rooted_in(generations: Seq<Generation>, roots: Seq<GcRoot>) -> bool {
    forall|k: int|
        0 <= k < generations.len() ==> exists|i: int|
            0 <= i < roots.len() && (#[trigger] generations[k]).root == #[trigger] roots[i]
}

/// The generations of a profile are among the roots of the run: what is
/// gathered holds no root that is not one of `roots`.
pub proof fn lemma_gathered_from_roots(
    entries: Seq<Option<DirEntry>>,
    roots: Seq<GcRoot>,
    profile_name: Seq<char>,
)
    ensures
        gathered(entries, roots, profile_name) matches Ok(generations) ==> rooted_in(
            generations,
            roots,
        ),
    decreases entries.len(),
{
    if entries.len() > 0 {
        lemma_gathered_from_roots(entries.drop_last(), roots, profile_name);
        match gathered(entries.drop_last(), roots, profile_name) {
            Ok(before) => {
                match entries.last() {
                    Some(entry) => match last_root_at(roots, entry.path@) {
                        Some(at) => match spec_generation_name(entry.file_name@, profile_name) {
                            GenerationName::Number(number) => {
                                lemma_last_root_at(roots, entry.path@);
                                lemma_entry_place(before, number);
                                let entered = Generation { number, root: roots[at] };
                                let place = entry_place(before, number);
                                let after = with_generation(before, entered);
                                assert forall|k: int| 0 <= k < after.len() implies exists|i: int|
                                    0 <= i < roots.len() && (#[trigger] after[k]).root
                                        == #[trigger] roots[i] by {
                                    if k < place {
                                        assert(after[k] == before[k]);
                                        let i = choose|i: int|
                                            0 <= i < roots.len() && before[k].root
                                                == #[trigger] roots[i];
                                        assert(after[k].root == roots[i]);
                                    } else if k == place {
                                        assert(after[k].root == roots[at]);
                                    } else {
                                        assert(after[k] == before[k - 1]);
                                        let i = choose|i: int|
                                            0 <= i < roots.len() && before[k - 1].root
                                                == #[trigger] roots[i];
                                        assert(after[k].root == roots[i]);
                                    }
                                }
                            },
                            _ => {},
                        },
                        None => {},
                    },
                    None => {},
                }
            },
            Err(_) => {},
        }
    }
}

/// Gathers the generations of the profile named `profile_name` from the
/// entries of its directory.
pub fn gather_generations(
    entries: &Vec<Option<DirEntry>>,
    roots: &Vec<GcRoot>,
    profile_name: &str,
) -> (r: Result<Vec<Generation>, RunError>)
    ensures
        match gathered(entries@, roots@, profile_name@) {
            Ok(generations) => r matches Ok(found) && found@ == generations,
            Err(e) => r == Err::<Vec<Generation>, RunError>(e),
        },
        r matches Ok(found) ==> newest_first(found@),
{
    let mut generations: Vec<Generation> = Vec::new();
    let mut index: usize = 0;
    while index < entries.len()
        invariant
            index <= entries.len(),
            gathered(entries@.subrange(0, index as int), roots@, profile_name@) == Ok::<
                Seq<Generation>,
                RunError,
            >(generations@),
        decreases entries.len() - index,
    {
        proof {
            let longer = entries@.subrange(0, index + 1);
            assert(longer.drop_last() == entries@.subrange(0, index as int));
            assert(longer.last() == entries@[index as int]);
        }
        match &entries[index] {
            None => {
                proof {
                    lemma_gathered_fails_on(entries@, index + 1, roots@, profile_name@);
                }
                return Err(RunError::ProfileEntry { index });
            },
            Some(entry) => {
                match find_root(roots, entry.path.as_str()) {
                    None => {},
                    Some(at) => {
                        match generation_name(entry.file_name.as_str(), profile_name) {
                            GenerationName::Foreign => {},
                            GenerationName::TooLarge => {
                                proof {
                                    lemma_gathered_fails_on(
                                        entries@,
                                        index + 1,
                                        roots@,
                                        profile_name@,
                                    );
                                }
                                return Err(RunError::GenerationNumber { index });
                            },
                            GenerationName::Number(number) => {
                                add_generation(
                                    &mut generations,
                                    Generation { number, root: roots[at].clone() },
                                );
                            },
                        }
                    },
                }
            },
        }
        index += 1;
    }
    proof {
        assert(entries@.subrange(0, entries.len() as int) == entries@);
        lemma_gathered_newest_first(entries@, roots@, profile_name@);
    }
    Ok(generations)
}

/// Once the gathering has failed on the first `k` entries, it fails in the
/// same way on all of them.
proof fn lemma_gathered_fails_on(
    entries: Seq<Option<DirEntry>>,
    k: int,
    roots: Seq<GcRoot>,
    profile_name: Seq<char>,
)
    requires
        0 <= k <= entries.len(),
        gathered(entries.subrange(0, k), roots, profile_name) is Err,
    ensures
        gathered(entries, roots, profile_name) == gathered(
            entries.subrange(0, k),
            roots,
            profile_name,
        ),
    decreases entries.len() - k,
{
    if k == entries.len() {
        assert(entries.subrange(0, k) == entries);
    } else {
        let longer = entries.subrange(0, k + 1);
        assert(longer.drop_last() == entries.subrange(0, k));
        lemma_gathered_fails_on(entries, k + 1, roots, profile_name);
    }
}

/// Whether a profile is passed over: its link is not there or not to be
/// looked at, or it is not the user's where only the user's count.
pub open spec fn profile_skipped(metadata: StatOutcome, owned_only: bool, uid: u32) -> bool {
    match metadata {
        StatOutcome::Found(found) => owned_only && found.uid != uid,
        _ => true,
    }
}

/// Why a profile that is not passed over cannot be read, if it cannot: the
/// first of its name, its link, its directory and the entries of that
/// directory that fails.
pub open spec fn profile_failure(
    path: Seq<char>,
    probe: ProfileProbe,
    roots: Seq<GcRoot>,
) -> Option<RunError> {
    match path_file_name(path) {
        None => Some(RunError::ProfileFileName),
        Some(name) => if probe.current_generation is None {
            Some(RunError::ProfileLink)
        } else {
            match probe.listing {
                Listing::NoParent => Some(RunError::ProfileParent),
                Listing::Unreadable => Some(RunError::ProfileDirectory),
                Listing::Entries(entries) => match gathered(entries@, roots, name) {
                    Err(e) => Some(e),
                    Ok(_) => None,
                },
            }
        },
    }
}

/// The generations of a profile that can be read.
pub open spec fn profile_generations(
    path: Seq<char>,
    probe: ProfileProbe,
    roots: Seq<GcRoot>,
) -> Seq<Generation> {
    gathered(probe.listing->Entries_0@, roots, path_file_name(path)->0)->Ok_0
}

/// Builds the profile at `path` from what was observed of it and from the
/// roots of the run.
pub fn read_profile(
    path: &str,
    probe: &ProfileProbe,
    roots: &Vec<GcRoot>,
    owned_only: bool,
    uid: u32,
) -> (r: Result<Option<Profile>, RunError>)
    ensures
        profile_skipped(probe.metadata, owned_only, uid) ==> r matches Ok(None),
        !profile_skipped(probe.metadata, owned_only, uid) ==> match profile_failure(
            path@,
            *probe,
            roots@,
        ) {
            Some(e) => r matches Err(failure) && failure == e,
            None => r matches Ok(Some(profile)) && profile.wf() && profile.path@ == path@
                && StatOutcome::Found(profile.path_metadata) == probe.metadata
                && profile.current_generation@ == probe.current_generation->0@
                && profile.generations@ == profile_generations(path@, *probe, roots@),
        },
{
    let metadata = match probe.metadata {
        StatOutcome::Found(found) => found,
        _ => {
            return Ok(None);
        },
    };
    if owned_only && metadata.uid != uid {
        return Ok(None);
    }
    let profile_name = match file_name(path) {
        Some(name) => name,
        None => {
            return Err(RunError::ProfileFileName);
        },
    };
    let current_generation = match &probe.current_generation {
        Some(target) => target.clone(),
        None => {
            return Err(RunError::ProfileLink);
        },
    };
    let entries = match &probe.listing {
        Listing::NoParent => {
            return Err(RunError::ProfileParent);
        },
        Listing::Unreadable => {
            return Err(RunError::ProfileDirectory);
        },
        Listing::Entries(entries) => entries,
    };
    let generations = gather_generations(entries, roots, profile_name.as_str())?;
    Ok(
        Some(
            Profile {
                path: path.to_owned(),
                path_metadata: metadata,
                current_generation,
                generations,
            },
        ),
    )
}

} // verus!


