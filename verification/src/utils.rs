//! Small rules shared by the commands.

use crate::gc_root::GcRoot;
use crate::paths::{path_starts_with, starts_with};
use crate::text::chars_of;
use crate::time::Duration;
use uzers::os::unix::UserExt;
use vstd::prelude::*;
use vstd::string::StringExecFns;

verus! {

/// Whether the canonical form of a target lies in the store: the target has
/// a canonical form, and the store is a prefix of it.
pub open spec fn in_store(store: Seq<char>, canonical: Option<String>) -> bool {
    canonical is Some && path_starts_with(canonical->0@, store)
}

/// Gives the canonical form of a target back where it lies in the store.
/// `canonical` is that form; `None` where the target has none.
pub fn validate_store_path(store: &str, canonical: Option<String>) -> (r: Option<String>)
    ensures
        r is Some == in_store(store@, canonical),
        r is Some ==> r == canonical,
{
    match canonical {
        Some(path) => {
            if starts_with(path.as_str(), store) {
                Some(path)
            } else {
                None
            }
        },
        None => None,
    }
}

/// Calls `uzers::get_current_uid`. Nothing is claimed of the result: it is
/// the user of the process.
#[verifier::external_body]
pub(crate) fn current_uid() -> u32 {
    uzers::get_current_uid()
}

/// Calls `uzers::get_user_by_uid` and `home_dir` of what it finds. Nothing is
/// claimed of the result: it is what the user database of the machine says at
/// the time of the call.
#[verifier::external_body]
pub(crate) fn home_dir_of(uid: u32) -> Option<String> {
    uzers::get_user_by_uid(uid).map(|user| user.home_dir().to_string_lossy().into_owned())
}

/// The text that `humantime::format_duration` writes for a span of `secs`
/// seconds and `subsec_nanos` nanoseconds.
pub uninterp spec fn humantime_text(secs: u64, subsec_nanos: u32) -> Seq<char>;

/// Calls `humantime::format_duration`. Trusted: the result is the text that
/// `humantime_text` names.
#[verifier::external_body]
fn format_duration(secs: u64, subsec_nanos: u32) -> (r: String)
    requires
        subsec_nanos < 1_000_000_000,
    ensures
        r@ == humantime_text(secs, subsec_nanos),
{
    humantime::format_duration(std::time::Duration::new(secs, subsec_nanos)).to_string()
}

/// Position of the first space of `text` at or behind `from`; the length of
/// `text` where there is none.
pub open spec fn next_space(text: Seq<char>, from: int) -> int
    decreases text.len() - from,
{
    if from >= text.len() {
        text.len() as int
    } else if text[from] == ' ' {
        from
    } else {
        next_space(text, from + 1)
    }
}

/// `text` up to its second space: its first two words where single spaces
/// part the words.
pub open spec fn two_words(text: Seq<char>) -> Seq<char> {
    let first = next_space(text, 0);
    if first >= text.len() {
        text
    } else {
        text.subrange(0, next_space(text, first + 1))
    }
}

/// Finds the first space at or behind `from`.
fn find_space(text: &Vec<char>, from: usize) -> (r: usize)
    requires
        from <= text.len(),
    ensures
        r == next_space(text@, from as int),
        from <= r <= text.len(),
{
    let mut at: usize = from;
    while at < text.len() && text[at] != ' '
        invariant
            from <= at <= text.len(),
            next_space(text@, from as int) == next_space(text@, at as int),
        decreases text.len() - at,
    {
        at += 1;
    }
    at
}

/// Cuts `text` behind its second word.
pub fn first_two_words(text: &str) -> (r: String)
    ensures
        r@ == two_words(text@),
{
    let chars = chars_of(text);
    let first = find_space(&chars, 0);
    if first >= chars.len() {
        return text.to_owned();
    }
    let second = find_space(&chars, first + 1);
    text.substring_char(0, second).to_owned()
}

/// The two largest units of `duration`, as `humantime` writes them.
pub fn format_duration_short(duration: Duration) -> (r: String)
    ensures
        r@ == two_words(humantime_text(duration.as_secs(), duration.subsec_nanos())),
{
    let text = format_duration(duration.as_secs(), duration.subsec_nanos());
    first_two_words(text.as_str())
}

/// The mark of a rehearsed removal: it is shown only where `show` holds.
pub open spec fn spec_dry_run_indicator(show: bool) -> Seq<char> {
    if show {
        " (dry-run)"@
    } else {
        ""@
    }
}

/// The mark of a rehearsed removal.
pub fn dry_run_indicator(show: bool) -> (r: &'static str)
    ensures
        r@ == spec_dry_run_indicator(show),
{
    if show {
        " (dry-run)"
    } else {
        ""
    }
}

/// A user of the machine, as far as the rules need one.
#[derive(Debug)]
pub struct User {
    /// User id.
    pub uid: u32,
    /// Home directory.
    pub home_dir: String,
}

/// Whether `uids` rises strictly: it is in order and names no user twice.
pub open spec fn strictly_rising(uids: Seq<u32>) -> bool {
    forall|i: int, j: int| 0 <= i < j < uids.len() ==> uids[i] < uids[j]
}

/// Whether a root among the first `n` has a target that `uid` owns.
pub open spec fn owns_a_target(roots: Seq<GcRoot>, n: int, uid: u32) -> bool {
    exists|i: int|
        0 <= i < n && 0 <= i < roots.len() && (#[trigger] roots[i]).path_metadata.uid == uid
}

/// The users that own the targets of the roots: each once, in the order of
/// their ids.
pub fn owner_uids(roots: &Vec<GcRoot>) -> (uids: Vec<u32>)
    ensures
        strictly_rising(uids@),
        forall|uid: u32| uids@.contains(uid) <==> owns_a_target(roots@, roots@.len() as int, uid),
{
    let mut uids: Vec<u32> = Vec::new();
    let mut i: usize = 0;
    while i < roots.len()
        invariant
            i <= roots.len(),
            strictly_rising(uids@),
            forall|uid: u32| uids@.contains(uid) <==> owns_a_target(roots@, i as int, uid),
        decreases roots.len() - i,
    {
        let uid = roots[i].path_metadata.uid;
        let mut place: usize = 0;
        while place < uids.len() && uids[place] < uid
            invariant
                place <= uids.len(),
                strictly_rising(uids@),
                forall|k: int| 0 <= k < place ==> uids@[k] < uid,
            decreases uids.len() - place,
        {
            place += 1;
        }
        let ghost before = uids@;
        let known = place < uids.len() && uids[place] == uid;
        if !known {
            uids.insert(place, uid);
        }
        proof {
            if known {
                assert(before.contains(uid));
            } else {
                assert forall|k: int| 0 <= k < before.len() implies before[k] != uid by {
                    if k >= place {
                        assert(before[place as int] <= before[k]);
                    }
                }
                assert forall|a: int, b: int| 0 <= a < b < uids@.len() implies uids@[a]
                    < uids@[b] by {
                    if b < place {
                    } else if b == place {
                    } else if a < place {
                        assert(uids@[b] == before[b - 1]);
                        assert(before[place as int] <= before[b - 1]);
                    } else if a == place {
                        assert(uids@[b] == before[b - 1]);
                        assert(before[place as int] <= before[b - 1]);
                    } else {
                        assert(uids@[a] == before[a - 1] && uids@[b] == before[b - 1]);
                    }
                }
            }
            assert forall|other: u32| uids@.contains(other) <==> owns_a_target(
                roots@,
                i + 1,
                other,
            ) by {
                if uids@.contains(other) {
                    let k = choose|k: int| 0 <= k < uids@.len() && uids@[k] == other;
                    if other != uid {
                        if known {
                            assert(before.contains(other));
                        } else if k < place {
                            assert(before[k] == other);
                            assert(before.contains(other));
                        } else {
                            assert(before[k - 1] == other);
                            assert(before.contains(other));
                        }
                        let at = choose|at: int|
                            0 <= at < i && 0 <= at < roots@.len() && (
                            #[trigger] roots@[at]).path_metadata.uid == other;
                        assert(roots@[at].path_metadata.uid == other);
                    } else {
                        assert(roots@[i as int].path_metadata.uid == other);
                    }
                }
                if owns_a_target(roots@, i + 1, other) {
                    let at = choose|at: int|
                        0 <= at < i + 1 && 0 <= at < roots@.len() && (
                        #[trigger] roots@[at]).path_metadata.uid == other;
                    if other == uid {
                        if known {
                            assert(uids@[place as int] == uid);
                        } else {
                            assert(uids@[place as int] == uid);
                        }
                    } else {
                        assert(at < i);
                        assert(owns_a_target(roots@, i as int, other));
                        assert(before.contains(other));
                        let k = choose|k: int| 0 <= k < before.len() && before[k] == other;
                        if known {
                        } else if k < place {
                            assert(uids@[k] == other);
                        } else {
                            assert(uids@[k + 1] == other);
                        }
                    }
                }
            }
        }
        i += 1;
    }
    uids
}

/// What the user database says of the id at position `i`: the home
/// directory of the user, or `None` for an id that it does not know or was
/// not asked about.
pub open spec fn home_at(homes: Seq<Option<String>>, i: int) -> Option<String> {
    if 0 <= i < homes.len() {
        homes[i]
    } else {
        None
    }
}

/// Puts the users together from what the user database says of each id:
/// `homes` holds, for each of `uids` in turn, the home directory of the user,
/// or `None` for an id that the database does not know. The first unknown id
/// fails the discovery.
pub fn users_of(uids: &Vec<u32>, homes: Vec<Option<String>>) -> (r: Result<Vec<User>, u32>)
    ensures
        match r {
            Ok(users) => users@.len() == uids@.len() && forall|i: int|
                0 <= i < users@.len() ==> (#[trigger] users@[i]).uid == uids@[i] && home_at(
                    homes@,
                    i,
                ) == Some(users@[i].home_dir),
            Err(uid) => exists|i: int|
                0 <= i < uids@.len() && uids@[i] == uid && #[trigger] home_at(homes@, i) is None
                    && forall|j: int| 0 <= j < i ==> #[trigger] home_at(homes@, j) is Some,
        },
{
    let mut users: Vec<User> = Vec::new();
    let mut i: usize = 0;
    while i < uids.len()
        invariant
            i <= uids.len(),
            users@.len() == i,
            forall|k: int| 0 <= k < i ==> #[trigger] home_at(homes@, k) is Some,
            forall|k: int|
                0 <= k < i ==> (#[trigger] users@[k]).uid == uids@[k] && home_at(homes@, k)
                    == Some(users@[k].home_dir),
        decreases uids.len() - i,
    {
        if i >= homes.len() {
            assert(home_at(homes@, i as int) is None);
            return Err(uids[i]);
        }
        match &homes[i] {
            Some(home) => {
                users.push(User { uid: uids[i], home_dir: home.clone() });
            },
            None => {
                assert(home_at(homes@, i as int) is None);
                return Err(uids[i]);
            },
        }
        i += 1;
    }
    Ok(users)
}

/// Finds the users that own the targets of the roots. It fails with the
/// first id, in the order of the ids, that the user database does not know.
pub fn discover_users(roots: &Vec<GcRoot>) -> (r: Result<Vec<User>, u32>)
    ensures
        r matches Ok(users) ==> (forall|i: int, j: int|
            0 <= i < j < users@.len() ==> users@[i].uid < users@[j].uid) && (forall|uid: u32|
            owns_a_target(roots@, roots@.len() as int, uid) <==> exists|i: int|
                0 <= i < users@.len() && (#[trigger] users@[i]).uid == uid),
        r matches Err(uid) ==> owns_a_target(roots@, roots@.len() as int, uid),
{
    let uids = owner_uids(roots);
    let mut homes: Vec<Option<String>> = Vec::new();
    let mut i: usize = 0;
    while i < uids.len()
        invariant
            i <= uids.len(),
            homes@.len() == i,
        decreases uids.len() - i,
    {
        homes.push(home_dir_of(uids[i]));
        i += 1;
    }
    let result = users_of(&uids, homes);
    proof {
        match &result {
            Ok(users) => {
                assert forall|uid: u32|
                    owns_a_target(roots@, roots@.len() as int, uid) <==> exists|i: int|
                        0 <= i < users@.len() && (#[trigger] users@[i]).uid == uid by {
                    if uids@.contains(uid) {
                        let k = choose|k: int| 0 <= k < uids@.len() && uids@[k] == uid;
                        assert(users@[k].uid == uid);
                    }
                    if exists|i: int| 0 <= i < users@.len() && (#[trigger] users@[i]).uid == uid {
                        let k = choose|k: int|
                            0 <= k < users@.len() && (#[trigger] users@[k]).uid == uid;
                        assert(uids@[k] == uid);
                        assert(uids@.contains(uid));
                    }
                }
            },
            Err(uid) => {
                assert(uids@.contains(*uid));
            },
        }
    }
    result
}

/// The home directories of the users, in their order.
pub fn user_homes(users: &Vec<User>) -> (homes: Vec<String>)
    ensures
        homes@.len() == users@.len(),
        forall|i: int| 0 <= i < homes@.len() ==> homes@[i] == (#[trigger] users@[i]).home_dir,
{
    let mut homes: Vec<String> = Vec::new();
    let mut i: usize = 0;
    while i < users.len()
        invariant
            i <= users.len(),
            homes@.len() == i,
            forall|k: int| 0 <= k < i ==> homes@[k] == (#[trigger] users@[k]).home_dir,
        decreases users.len() - i,
    {
        homes.push(users[i].home_dir.clone());
        i += 1;
    }
    homes
}

/// The home directory of the user of the process; the id of that user where
/// the user database does not know it. Who the user is and what the database
/// knows is the machine's to say: the answer is what `home_or_unknown` makes
/// of the two.
pub fn current_user_home() -> Result<String, u32> {
    let uid = current_uid();
    home_or_unknown(uid, home_dir_of(uid))
}

/// What is made of the answer of the user database about the user `uid`:
/// the home directory where the database gave one, and else the id, as that
/// of a user who is not known.
pub fn home_or_unknown(uid: u32, home: Option<String>) -> (r: Result<String, u32>)
    ensures
        r == match home {
            Some(directory) => Ok::<String, u32>(directory),
            None => Err::<String, u32>(uid),
        },
{
    match home {
        Some(directory) => Ok(directory),
        None => Err(uid),
    }
}

/// How many characters stand between `from` and the next line feed, or the
/// end of `text` where no line feed follows.
pub open spec fn line_length(text: Seq<char>, from: int) -> nat
    decreases text.len() - from,
{
    if from < 0 || from >= text.len() || text[from] == '\n' {
        0
    } else {
        1 + line_length(text, from + 1)
    }
}

/// The line of `text` that begins at `from`: it reaches to the next line
/// feed, and a carriage return right before that line feed is no part of
/// it.
pub open spec fn line_at(text: Seq<char>, from: int) -> Seq<char> {
    let end = from + line_length(text, from);
    if end < text.len() && from < end && text[end - 1] == '\r' {
        text.subrange(from, end - 1)
    } else {
        text.subrange(from, end)
    }
}

/// `count` spaces.
pub open spec fn spaces(count: nat) -> Seq<char> {
    Seq::new(count, |i: int| ' ')
}

/// The lines of `text` from `from` on, each behind `indent` spaces, with a
/// line feed between two lines. A line feed at the very end of `text` begins
/// no further line.
pub open spec fn indented_from(text: Seq<char>, from: int, indent: nat) -> Seq<char>
    decreases text.len() - from,
{
    if from < 0 || from >= text.len() {
        Seq::empty()
    } else {
        let next = from + line_length(text, from) + 1;
        let head = spaces(indent) + line_at(text, from);
        if next >= text.len() {
            head
        } else {
            head + seq!['\n'] + indented_from(text, next, indent)
        }
    }
}

/// The lines of `text`, each behind `indent` spaces.
pub open spec fn indented(text: Seq<char>, indent: nat) -> Seq<char> {
    indented_from(text, 0, indent)
}

/// A text of `count` spaces.
fn padding(count: usize) -> (r: String)
    ensures
        r@ == spaces(count as nat),
{
    let mut pad = String::new();
    let mut i: usize = 0;
    proof {
        reveal_strlit(" ");
    }
    while i < count
        invariant
            i <= count,
            pad@ == spaces(i as nat),
            " "@ == seq![' '],
        decreases count - i,
    {
        pad.append(" ");
        assert(pad@ =~= spaces((i + 1) as nat));
        i += 1;
    }
    pad
}

/// Puts `indent` spaces before every line of `text`.
pub fn add_indent(text: &str, indent: usize) -> (r: String)
    ensures
        r@ == indented(text@, indent as nat),
{
    let chars = chars_of(text);
    let pad = padding(indent);
    let mut result = String::new();
    let mut from: usize = 0;
    proof {
        reveal_strlit("\n");
        assert(result@ + indented_from(text@, 0, indent as nat) =~= indented_from(
            text@,
            0,
            indent as nat,
        ));
    }
    while from < chars.len()
        invariant
            from <= chars.len(),
            chars@ == text@,
            pad@ == spaces(indent as nat),
            "\n"@ == seq!['\n'],
            result@ + indented_from(text@, from as int, indent as nat) == indented(
                text@,
                indent as nat,
            ),
        decreases chars.len() - from,
    {
        let mut end: usize = from;
        while end < chars.len() && chars[end] != '\n'
            invariant
                from <= end <= chars.len(),
                chars@ == text@,
                from + line_length(text@, from as int) == end + line_length(text@, end as int),
            decreases chars.len() - end,
        {
            end += 1;
        }
        assert(line_length(text@, end as int) == 0);
        let stop: usize = if end < chars.len() && from < end && chars[end - 1] == '\r' {
            end - 1
        } else {
            end
        };
        let ghost before = result@;
        let ghost rest = indented_from(text@, from as int, indent as nat);
        result.append(pad.as_str());
        result.append(text.substring_char(from, stop));
        assert(result@ =~= before + (spaces(indent as nat) + line_at(text@, from as int)));
        if end < chars.len() && chars.len() - end > 1 {
            result.append("\n");
            proof {
                let head = spaces(indent as nat) + line_at(text@, from as int);
                let tail = indented_from(text@, end + 1, indent as nat);
                assert(rest == head + seq!['\n'] + tail);
                assert(result@ + tail =~= before + rest);
            }
            from = end + 1;
        } else {
            proof {
                assert(rest == spaces(indent as nat) + line_at(text@, from as int));
                assert(result@ + indented_from(text@, chars.len() as int, indent as nat)
                    =~= before + rest);
            }
            from = chars.len();
        }
    }
    assert(result@ + indented_from(text@, from as int, indent as nat) =~= result@);
    result
}

} // verus!
