use angrr::command::{Interactive, RunOptions};
use angrr::config::{CommonPolicyConfig, OwnedOnly, ProfileConfig, RunConfig, TemporaryRootConfig};
use angrr::current::Current;
use angrr::error::{FilterError, RunError};
use angrr::filter::{Filter, FilterOutcome, Input};
use angrr::gc_root::{Metadata, StatOutcome};
use angrr::profile::{DirEntry, Listing, ProfileProbe};
use angrr::run::{
    Action, Colour, Effect, Event, LinkProbe, Output, OutputTarget, Query, RunContext, Stage, Step,
};
use angrr::statistics::Summary;
use angrr::time::{Duration, Timestamp};
use regex::bytes::Regex;

const DAY: i128 = 86400 * 1_000_000_000;
const NOW: Timestamp = Timestamp { nanos: 1000 * DAY };

fn days(n: u64) -> Duration {
    Duration::from_secs(n * 86400)
}

fn options(interactive: Interactive, dry_run: bool) -> RunOptions {
    RunOptions {
        interactive,
        no_prompt: false,
        no_statistic: false,
        output: None,
        output_unbuffered: false,
        output_delimiter: "\n".to_string(),
        null_output_delimiter: false,
        dry_run,
    }
}

fn temporary(priority: usize, regex: &str, period_days: u64) -> TemporaryRootConfig {
    TemporaryRootConfig {
        common: CommonPolicyConfig { enable: true },
        priority,
        path_regex: Regex::new(regex).unwrap(),
        filter: None,
        ignore_prefixes: Vec::new(),
        ignore_prefixes_in_home: Vec::new(),
        period: Some(days(period_days)),
    }
}

fn with_filter(mut config: TemporaryRootConfig) -> TemporaryRootConfig {
    config.filter = Some(Filter { program: "/bin/filter".to_string(), arguments: Vec::new() });
    config
}

fn config(
    temporary: Vec<(&str, TemporaryRootConfig)>,
    profiles: Vec<(&str, ProfileConfig)>,
) -> RunConfig {
    RunConfig {
        store: "/store".to_string(),
        owned_only: OwnedOnly::False,
        remove_root: false,
        directory: vec!["/roots".to_string()],
        temporary_root_policies: temporary
            .into_iter()
            .map(|(name, config)| (name.to_string(), config))
            .collect(),
        profile_policies: profiles
            .into_iter()
            .map(|(name, config)| (name.to_string(), config))
            .collect(),
    }
}

fn current() -> Current {
    Current::new(NOW, None, None)
}

fn link(name: &str, target: &str, age_days: i128) -> LinkProbe {
    LinkProbe {
        link_path: format!("/roots/{}", name),
        target: Some(target.to_string()),
        metadata: StatOutcome::Found(Metadata {
            uid: 0,
            modified: Some(Timestamp { nanos: NOW.nanos - age_days * DAY }),
        }),
        canonical: Some(target.to_string()),
        owner_home: None,
    }
}

/// What a test hands to the run in answer to its queries.
struct Script {
    answers: Vec<Option<bool>>,
    filter: fn(usize, &Input) -> FilterOutcome,
    profile: fn(&str) -> ProfileProbe,
    delete: fn(&str) -> bool,
}

/// What a run had done: the effects in order, and the paths whose deletion
/// it asked for.
#[derive(Debug)]
struct Trace {
    effects: Vec<Effect>,
    deleted: Vec<String>,
}

impl Trace {
    fn is_empty(&self) -> bool {
        self.effects.is_empty() && self.deleted.is_empty()
    }
}

fn deletion_succeeds(_: &str) -> bool {
    true
}

fn deletion_fails(_: &str) -> bool {
    false
}

fn no_filter(_: usize, _: &Input) -> FilterOutcome {
    panic!("no filter should have been asked")
}

fn no_profile(_: &str) -> ProfileProbe {
    panic!("no profile should have been asked for")
}

fn script(answers: Vec<Option<bool>>) -> Script {
    Script { answers, filter: no_filter, profile: no_profile, delete: deletion_succeeds }
}

/// Drives the run to its end and gives back all that it had done, and the
/// queries it made.
fn drive(context: &mut RunContext, script: Script) -> Result<(Trace, Vec<String>), RunError> {
    let mut effects = Vec::new();
    let mut deleted = Vec::new();
    let mut queries = Vec::new();
    let mut answers = script.answers.into_iter();
    let mut event = Event::Continue;
    for _ in 0..10_000 {
        let Step { effects: done, query } = context.run(event)?;
        effects.extend(done);
        event = match query {
            Query::Continue => Event::Continue,
            Query::Filter { policy, input } => {
                queries.push(format!("filter {} {}", policy, input.path));
                Event::Filter((script.filter)(policy, &input))
            }
            Query::Confirm => {
                queries.push("confirm".to_string());
                Event::Answer(answers.next().expect("an answer was asked for"))
            }
            Query::Profile { path } => {
                queries.push(format!("profile {}", path));
                Event::Profile((script.profile)(&path))
            }
            Query::Delete { path } => {
                let done = (script.delete)(&path);
                deleted.push(path);
                Event::Deleted(done)
            }
            Query::Done => return Ok((Trace { effects, deleted }, queries)),
        };
    }
    panic!("the run did not end")
}

fn deleted(trace: &Trace) -> Vec<&str> {
    trace.deleted.iter().map(|path| path.as_str()).collect()
}

fn emitted(trace: &Trace) -> Vec<(bool, &str)> {
    trace
        .effects
        .iter()
        .filter_map(|e| match e {
            Effect::Emit { after_delimiter, path } => Some((*after_delimiter, path.as_str())),
            _ => None,
        })
        .collect()
}

fn told(trace: &Trace) -> Vec<(Action, &str, &str, bool)> {
    trace
        .effects
        .iter()
        .filter_map(|e| match e {
            Effect::Notify(n) => {
                Some((n.action, n.policy_name.as_str(), n.path.as_str(), n.dry_run))
            }
            _ => None,
        })
        .collect()
}

fn two_links() -> Vec<LinkProbe> {
    vec![link("a", "/store/x", 10), link("b", "/store/y", 40)]
}

fn one_policy(interactive: Interactive, dry_run: bool) -> RunContext {
    let mut context = RunContext::new(
        options(interactive, dry_run),
        config(vec![("tmp", temporary(100, ".*", 30))], Vec::new()),
        current(),
        0,
    );
    context.gc_roots(&two_links()).unwrap();
    context
}

#[test]
fn only_the_expired_root_is_removed() {
    let mut context = one_policy(Interactive::Never, false);
    let (effects, queries) = drive(&mut context, script(Vec::new())).unwrap();
    assert_eq!(deleted(&effects), vec!["/store/y"]);
    assert_eq!(emitted(&effects), vec![(false, "/store/y")]);
    assert_eq!(told(&effects), vec![(Action::Remove, "tmp", "/store/y", false)]);
    assert!(queries.is_empty());
    assert_eq!(context.stage, Stage::Finished);
    assert_eq!(
        context.finish(),
        Some(Summary {
            traversed: 2,
            monitored: 2,
            expired: 1,
            removed: 1,
            removed_in_dry_run: false,
            invalid: 0,
            kept: 1,
        })
    );
}

#[test]
fn the_age_of_a_root_is_the_time_since_its_target_was_modified() {
    let context = one_policy(Interactive::Never, false);
    assert_eq!(context.gc_roots.len(), 2);
    assert_eq!(context.gc_roots[0].path, "/store/x");
    assert_eq!(context.gc_roots[0].link_path, "/roots/a");
    assert_eq!(context.gc_roots[0].store_path, "/store/x");
    assert_eq!(context.gc_roots[0].age, days(10));
    assert_eq!(context.gc_roots[1].age, days(40));
    assert_eq!(context.statistic.traversed.get(), 2);
}

#[test]
fn a_root_that_is_young_enough_is_never_removed() {
    for interactive in [Interactive::Never, Interactive::Once, Interactive::Always] {
        for dry_run in [false, true] {
            let mut context = RunContext::new(
                options(interactive, dry_run),
                config(vec![("tmp", temporary(100, ".*", 30))], Vec::new()),
                current(),
                0,
            );
            context
                .gc_roots(&vec![link("a", "/store/x", 10), link("b", "/store/y", 30)])
                .unwrap();
            let (effects, queries) = drive(&mut context, script(Vec::new())).unwrap();
            assert!(effects.is_empty());
            assert!(queries.is_empty());
            assert!(context.waiting.is_empty());
            let summary = context.finish().unwrap();
            assert_eq!((summary.monitored, summary.expired, summary.removed), (2, 0, 0));
        }
    }
}

#[test]
fn the_root_itself_is_removed_where_asked() {
    let mut setup = config(vec![("tmp", temporary(100, ".*", 30))], Vec::new());
    setup.remove_root = true;
    let mut context = RunContext::new(options(Interactive::Never, false), setup, current(), 0);
    context.gc_roots(&two_links()).unwrap();
    let (effects, _) = drive(&mut context, script(Vec::new())).unwrap();
    assert_eq!(deleted(&effects), vec!["/roots/b"]);
    assert_eq!(emitted(&effects), vec![(false, "/roots/b")]);
}

#[test]
fn a_rehearsal_deletes_nothing_and_reports_the_same() {
    let mut rehearsal = one_policy(Interactive::Never, true);
    let (rehearsed, _) = drive(&mut rehearsal, script(Vec::new())).unwrap();
    let mut real = one_policy(Interactive::Never, false);
    let (done, _) = drive(&mut real, script(Vec::new())).unwrap();
    assert!(deleted(&rehearsed).is_empty());
    assert_eq!(deleted(&done), vec!["/store/y"]);
    assert_eq!(emitted(&rehearsed), emitted(&done));
    assert_eq!(told(&rehearsed), vec![(Action::Remove, "tmp", "/store/y", true)]);
    let rehearsed_summary = rehearsal.finish().unwrap();
    let real_summary = real.finish().unwrap();
    assert!(rehearsed_summary.removed_in_dry_run);
    assert!(!real_summary.removed_in_dry_run);
    assert_eq!(
        Summary { removed_in_dry_run: false, ..rehearsed_summary },
        real_summary
    );
}

#[test]
fn a_rehearsal_and_a_real_run_agree_in_every_mode() {
    for interactive in [Interactive::Never, Interactive::Once, Interactive::Always] {
        for yes in [false, true] {
            let answers = vec![Some(yes), Some(!yes), Some(yes)];
            let mut rehearsal = three_expired(interactive, true);
            let (rehearsed, asked_in_rehearsal) =
                drive(&mut rehearsal, script(answers.clone())).unwrap();
            let mut real = three_expired(interactive, false);
            let (done, asked) = drive(&mut real, script(answers)).unwrap();
            assert!(deleted(&rehearsed).is_empty());
            assert_eq!(emitted(&rehearsed), emitted(&done));
            assert_eq!(deleted(&done), emitted(&done).iter().map(|e| e.1).collect::<Vec<_>>());
            assert_eq!(asked_in_rehearsal, asked);
            assert_eq!(told(&rehearsed).len(), told(&done).len());
            assert_eq!(rehearsal.finish().unwrap().removed, real.finish().unwrap().removed);
        }
    }
}

fn three_expired(interactive: Interactive, dry_run: bool) -> RunContext {
    let mut context = RunContext::new(
        options(interactive, dry_run),
        config(vec![("tmp", temporary(100, ".*", 30))], Vec::new()),
        current(),
        0,
    );
    context
        .gc_roots(&vec![
            link("a", "/store/a", 31),
            link("b", "/store/b", 1),
            link("c", "/store/c", 50),
            link("d", "/store/d", 90),
        ])
        .unwrap();
    context
}

#[test]
fn a_run_that_asks_once_removes_all_on_a_yes() {
    let mut context = three_expired(Interactive::Once, false);
    let (effects, queries) = drive(&mut context, script(vec![Some(true)])).unwrap();
    assert_eq!(queries, vec!["confirm"]);
    assert_eq!(deleted(&effects), vec!["/store/a", "/store/c", "/store/d"]);
    assert_eq!(
        emitted(&effects),
        vec![(false, "/store/a"), (true, "/store/c"), (true, "/store/d")]
    );
    let announced: Vec<Action> = told(&effects).iter().map(|t| t.0).collect();
    assert_eq!(
        announced,
        vec![
            Action::AboutToRemove,
            Action::AboutToRemove,
            Action::AboutToRemove,
            Action::Remove,
            Action::Remove,
            Action::Remove
        ]
    );
    let summary = context.finish().unwrap();
    assert_eq!((summary.monitored, summary.expired, summary.removed, summary.kept), (4, 3, 3, 1));
}

#[test]
fn a_run_that_asks_once_removes_nothing_on_a_no() {
    let mut context = three_expired(Interactive::Once, false);
    let (effects, queries) = drive(&mut context, script(vec![Some(false)])).unwrap();
    assert_eq!(queries, vec!["confirm"]);
    assert!(deleted(&effects).is_empty());
    assert!(emitted(&effects).is_empty());
    assert_eq!(told(&effects).len(), 3);
    let summary = context.finish().unwrap();
    assert_eq!((summary.expired, summary.removed, summary.kept), (3, 0, 4));
}

#[test]
fn a_run_that_asks_once_does_not_ask_without_candidates() {
    let mut context = RunContext::new(
        options(Interactive::Once, false),
        config(vec![("tmp", temporary(100, ".*", 30))], Vec::new()),
        current(),
        0,
    );
    context.gc_roots(&vec![link("a", "/store/x", 10)]).unwrap();
    let (effects, queries) = drive(&mut context, script(Vec::new())).unwrap();
    assert!(effects.is_empty());
    assert!(queries.is_empty());
}

#[test]
fn a_run_that_always_asks_asks_about_each_candidate() {
    let mut context = three_expired(Interactive::Always, false);
    let (effects, queries) =
        drive(&mut context, script(vec![Some(true), Some(false), Some(true)])).unwrap();
    assert_eq!(queries, vec!["confirm", "confirm", "confirm"]);
    assert_eq!(deleted(&effects), vec!["/store/a", "/store/d"]);
    assert_eq!(
        told(&effects),
        vec![
            (Action::AboutToRemove, "tmp", "/store/a", false),
            (Action::Remove, "tmp", "/store/a", false),
            (Action::AboutToRemove, "tmp", "/store/c", false),
            (Action::Ignored, "tmp", "/store/c", false),
            (Action::AboutToRemove, "tmp", "/store/d", false),
            (Action::Remove, "tmp", "/store/d", false),
        ]
    );
    let summary = context.finish().unwrap();
    assert_eq!((summary.expired, summary.removed), (3, 2));
}

#[test]
fn an_operator_who_cannot_be_asked_ends_the_run() {
    let mut always = three_expired(Interactive::Always, false);
    assert_eq!(drive(&mut always, script(vec![None])).unwrap_err(), RunError::Prompt);
    let mut once = three_expired(Interactive::Once, false);
    assert_eq!(drive(&mut once, script(vec![None])).unwrap_err(), RunError::Prompt);
}

#[test]
fn the_first_policy_in_order_that_monitors_a_root_wins() {
    let mut context = RunContext::new(
        options(Interactive::Never, false),
        config(
            vec![
                ("late", temporary(200, ".*", 1)),
                ("narrow", temporary(50, "/special/", 1)),
                ("early", temporary(100, ".*", 100)),
            ],
            Vec::new(),
        ),
        current(),
        0,
    );
    context
        .gc_roots(&vec![link("a", "/store/special/x", 10), link("b", "/store/y", 10)])
        .unwrap();
    let (effects, _) = drive(&mut context, script(Vec::new())).unwrap();
    assert_eq!(told(&effects), vec![(Action::Remove, "narrow", "/store/special/x", false)]);
    let summary = context.finish().unwrap();
    assert_eq!((summary.monitored, summary.expired, summary.removed), (2, 1, 1));
}

#[test]
fn the_name_decides_between_policies_of_one_priority() {
    for names in [["A", "B"], ["B", "A"]] {
        let mut context = RunContext::new(
            options(Interactive::Never, false),
            config(
                vec![
                    (names[0], temporary(100, ".*", if names[0] == "A" { 5 } else { 100 })),
                    (names[1], temporary(100, ".*", if names[1] == "A" { 5 } else { 100 })),
                ],
                Vec::new(),
            ),
            current(),
            0,
        );
        context.gc_roots(&vec![link("a", "/store/x", 10)]).unwrap();
        let (effects, _) = drive(&mut context, script(Vec::new())).unwrap();
        assert_eq!(told(&effects), vec![(Action::Remove, "A", "/store/x", false)]);
    }
}

#[test]
fn a_root_that_no_policy_monitors_is_left_alone() {
    let mut context = RunContext::new(
        options(Interactive::Never, false),
        config(vec![("tmp", temporary(100, "/result$", 1))], Vec::new()),
        current(),
        0,
    );
    context.gc_roots(&two_links()).unwrap();
    let (effects, _) = drive(&mut context, script(Vec::new())).unwrap();
    assert!(effects.is_empty());
    let summary = context.finish().unwrap();
    assert_eq!((summary.traversed, summary.monitored, summary.kept), (2, 0, 2));
}

fn refuse(_: usize, _: &Input) -> FilterOutcome {
    FilterOutcome::Exited { success: false }
}

fn accept(_: usize, _: &Input) -> FilterOutcome {
    FilterOutcome::Exited { success: true }
}

fn crash(_: usize, _: &Input) -> FilterOutcome {
    FilterOutcome::SpawnFailed
}

fn filtered_first(period_of_second: Option<u64>) -> RunContext {
    let mut policies = vec![("first", with_filter(temporary(1, ".*", 5)))];
    if let Some(period) = period_of_second {
        policies.push(("second", temporary(2, ".*", period)));
    }
    let mut context = RunContext::new(
        options(Interactive::Never, false),
        config(policies, Vec::new()),
        current(),
        0,
    );
    context.gc_roots(&two_links()).unwrap();
    context
}

#[test]
fn a_refusing_filter_hands_every_root_to_the_next_policy() {
    let mut context = filtered_first(Some(30));
    let mut script = script(Vec::new());
    script.filter = refuse;
    let (effects, queries) = drive(&mut context, script).unwrap();
    assert_eq!(queries, vec!["filter 0 /store/x", "filter 0 /store/y"]);
    assert_eq!(told(&effects), vec![(Action::Remove, "second", "/store/y", false)]);
    let summary = context.finish().unwrap();
    assert_eq!((summary.monitored, summary.expired, summary.removed), (2, 1, 1));
}

#[test]
fn a_refusing_filter_leaves_roots_untouched_where_no_policy_follows() {
    let mut context = filtered_first(None);
    let mut script = script(Vec::new());
    script.filter = refuse;
    let (effects, queries) = drive(&mut context, script).unwrap();
    assert_eq!(queries.len(), 2);
    assert!(effects.is_empty());
    let summary = context.finish().unwrap();
    assert_eq!((summary.monitored, summary.expired, summary.removed), (0, 0, 0));
}

#[test]
fn an_agreeing_filter_keeps_the_root_with_its_policy() {
    let mut context = filtered_first(Some(30));
    let mut script = script(Vec::new());
    script.filter = accept;
    let (effects, _) = drive(&mut context, script).unwrap();
    assert_eq!(
        told(&effects),
        vec![
            (Action::Remove, "first", "/store/x", false),
            (Action::Remove, "first", "/store/y", false)
        ]
    );
}

#[test]
fn the_filter_is_told_the_target_and_the_link() {
    let mut context = filtered_first(None);
    let step = context.run(Event::Continue).unwrap();
    match step.query {
        Query::Filter { policy, input } => {
            assert_eq!(policy, 0);
            assert_eq!(input.path, "/store/x");
            assert_eq!(input.gc_root, "/roots/a");
            assert_eq!(
                input.to_json().unwrap(),
                "{\"path\":\"/store/x\",\"gc_root\":\"/roots/a\"}"
            );
        }
        other => panic!("the filter was not asked: {:?}", other),
    }
    assert_eq!(context.stage, Stage::Filtering { root: 0, policy: 0 });
}

#[test]
fn a_filter_that_cannot_be_run_ends_the_run() {
    let mut context = filtered_first(Some(30));
    let mut script = script(Vec::new());
    script.filter = crash;
    assert_eq!(drive(&mut context, script).unwrap_err(), RunError::Filter(FilterError::Spawn));
}

#[test]
fn an_answer_to_a_question_that_was_not_asked_ends_the_run() {
    let mut context = one_policy(Interactive::Never, false);
    assert_eq!(
        context.run(Event::Answer(Some(true))).unwrap_err(),
        RunError::UnexpectedEvent
    );
    assert_eq!(
        context.run(Event::Filter(FilterOutcome::Exited { success: true })).unwrap_err(),
        RunError::UnexpectedEvent
    );
    let mut asking = filtered_first(None);
    asking.run(Event::Continue).unwrap();
    assert_eq!(asking.run(Event::Continue).unwrap_err(), RunError::UnexpectedEvent);
}

#[test]
fn a_finished_run_stays_finished() {
    let mut context = one_policy(Interactive::Never, true);
    drive(&mut context, script(Vec::new())).unwrap();
    let step = context.run(Event::Answer(None)).unwrap();
    assert!(step.effects.is_empty());
    assert!(matches!(step.query, Query::Done));
    assert_eq!(context.stage, Stage::Finished);
}

fn found(uid: u32) -> StatOutcome {
    StatOutcome::Found(Metadata { uid, modified: Some(NOW) })
}

fn classify(owned_only: OwnedOnly, uid: u32, probe: LinkProbe) -> Result<usize, RunError> {
    let mut setup = config(Vec::new(), Vec::new());
    setup.owned_only = owned_only;
    let mut context = RunContext::new(options(Interactive::Never, false), setup, current(), uid);
    context.gc_roots(&vec![probe])?;
    assert_eq!(context.statistic.traversed.get(), 1);
    Ok(context.gc_roots.len())
}

#[test]
fn a_link_that_cannot_be_read_ends_the_run() {
    let mut probe = link("a", "/store/x", 1);
    probe.target = None;
    assert_eq!(classify(OwnedOnly::False, 0, probe), Err(RunError::ReadLink { index: 0 }));
}

#[test]
fn a_link_whose_target_is_missing_is_passed_over() {
    for metadata in [StatOutcome::NotFound, StatOutcome::PermissionDenied, StatOutcome::Failed] {
        for owned_only in [OwnedOnly::False, OwnedOnly::True] {
            let mut probe = link("a", "/store/x", 1);
            probe.metadata = metadata;
            assert_eq!(classify(owned_only, 0, probe), Ok(0));
        }
    }
}

#[test]
fn a_target_of_another_user_is_passed_over_where_only_the_own_count() {
    let mut probe = link("a", "/store/x", 1);
    probe.metadata = found(7);
    assert_eq!(classify(OwnedOnly::True, 8, link_like(&probe)), Ok(0));
    assert_eq!(classify(OwnedOnly::True, 7, link_like(&probe)), Ok(1));
    assert_eq!(classify(OwnedOnly::False, 8, link_like(&probe)), Ok(1));
    assert_eq!(classify(OwnedOnly::Auto, 8, link_like(&probe)), Ok(0));
    assert_eq!(classify(OwnedOnly::Auto, 0, link_like(&probe)), Ok(1));
}

fn link_like(probe: &LinkProbe) -> LinkProbe {
    LinkProbe {
        link_path: probe.link_path.clone(),
        target: probe.target.clone(),
        metadata: probe.metadata,
        canonical: probe.canonical.clone(),
        owner_home: probe.owner_home.clone(),
    }
}

#[test]
fn a_target_outside_the_store_is_passed_over() {
    let mut outside = link("a", "/home/user/file", 1);
    assert_eq!(classify(OwnedOnly::False, 0, link_like(&outside)), Ok(0));
    outside.canonical = Some("/storefront/x".to_string());
    assert_eq!(classify(OwnedOnly::False, 0, link_like(&outside)), Ok(0));
    outside.canonical = None;
    assert_eq!(classify(OwnedOnly::False, 0, link_like(&outside)), Ok(0));
    outside.canonical = Some("/store/x".to_string());
    assert_eq!(classify(OwnedOnly::False, 0, outside), Ok(1));
}

#[test]
fn a_target_without_a_time_of_modification_ends_the_run() {
    let mut probe = link("a", "/store/x", 1);
    probe.metadata = StatOutcome::Found(Metadata { uid: 0, modified: None });
    assert_eq!(
        classify(OwnedOnly::False, 0, link_like(&probe)),
        Err(RunError::ModifiedTime { index: 0 })
    );
    probe.canonical = None;
    assert_eq!(classify(OwnedOnly::False, 0, probe), Ok(0));
}

#[test]
fn a_target_from_the_future_has_no_age() {
    let mut context = RunContext::new(
        options(Interactive::Never, false),
        config(Vec::new(), Vec::new()),
        current(),
        0,
    );
    context.gc_roots(&vec![link("a", "/store/x", -5)]).unwrap();
    assert_eq!(context.gc_roots[0].age, Duration::zero());
}

#[test]
fn the_first_fault_among_the_links_is_reported() {
    let mut unreadable = link("b", "/store/y", 1);
    unreadable.target = None;
    let mut timeless = link("c", "/store/z", 1);
    timeless.metadata = StatOutcome::Found(Metadata { uid: 0, modified: None });
    let mut context = RunContext::new(
        options(Interactive::Never, false),
        config(Vec::new(), Vec::new()),
        current(),
        0,
    );
    assert_eq!(
        context.gc_roots(&vec![link("a", "/store/x", 1), timeless, unreadable]),
        Err(RunError::ModifiedTime { index: 1 })
    );
}

fn profile_config(latest: Option<usize>) -> ProfileConfig {
    ProfileConfig {
        common: CommonPolicyConfig { enable: true },
        profile_paths: vec!["/profiles/sys".to_string(), "/profiles/gone".to_string()],
        keep_since: None,
        keep_latest_n: latest,
        keep_current_system: false,
        keep_booted_system: false,
    }
}

fn sys_probe(path: &str) -> ProfileProbe {
    if path != "/profiles/sys" {
        return ProfileProbe {
            metadata: StatOutcome::NotFound,
            current_generation: None,
            listing: Listing::Unreadable,
        };
    }
    ProfileProbe {
        metadata: found(0),
        current_generation: Some("sys-5-link".to_string()),
        listing: Listing::Entries(
            ["sys", "sys-3-link", "sys-1-link", "sys-5-link", "sys-2-link", "sys-4-link"]
                .iter()
                .map(|name| {
                    Some(DirEntry {
                        path: format!("/profiles/{}", name),
                        file_name: name.to_string(),
                    })
                })
                .collect(),
        ),
    }
}

fn generation_links() -> Vec<LinkProbe> {
    (1..=5)
        .map(|n| LinkProbe {
            link_path: format!("/roots/g{}", n),
            target: Some(format!("/profiles/sys-{}-link", n)),
            metadata: found(0),
            canonical: Some(format!("/store/system-{}", n)),
            owner_home: None,
        })
        .collect()
}

fn profile_run(interactive: Interactive, latest: Option<usize>) -> RunContext {
    let mut context = RunContext::new(
        options(interactive, false),
        config(Vec::new(), vec![("system", profile_config(latest))]),
        current(),
        0,
    );
    context.gc_roots(&generation_links()).unwrap();
    context
}

#[test]
fn the_generations_that_are_not_kept_are_removed() {
    let mut context = profile_run(Interactive::Never, Some(2));
    let mut script = script(Vec::new());
    script.profile = sys_probe;
    let (effects, queries) = drive(&mut context, script).unwrap();
    assert_eq!(queries, vec!["profile /profiles/sys", "profile /profiles/gone"]);
    assert_eq!(
        deleted(&effects),
        vec!["/profiles/sys-3-link", "/profiles/sys-2-link", "/profiles/sys-1-link"]
    );
    assert_eq!(
        told(&effects),
        vec![
            (Action::Remove, "system", "/profiles/sys-3-link", false),
            (Action::Remove, "system", "/profiles/sys-2-link", false),
            (Action::Remove, "system", "/profiles/sys-1-link", false),
        ]
    );
    let summary = context.finish().unwrap();
    assert_eq!(
        (summary.traversed, summary.monitored, summary.expired, summary.removed, summary.kept),
        (5, 5, 3, 3, 2)
    );
}

#[test]
fn generations_are_confirmed_one_by_one_where_the_run_always_asks() {
    let mut context = profile_run(Interactive::Always, Some(3));
    let mut script = script(vec![Some(false), Some(true)]);
    script.profile = sys_probe;
    let (effects, queries) = drive(&mut context, script).unwrap();
    assert_eq!(
        queries,
        vec!["profile /profiles/sys", "confirm", "confirm", "profile /profiles/gone"]
    );
    assert_eq!(deleted(&effects), vec!["/profiles/sys-1-link"]);
    assert_eq!(
        told(&effects),
        vec![
            (Action::AboutToRemove, "system", "/profiles/sys-2-link", false),
            (Action::Ignored, "system", "/profiles/sys-2-link", false),
            (Action::AboutToRemove, "system", "/profiles/sys-1-link", false),
            (Action::Remove, "system", "/profiles/sys-1-link", false),
        ]
    );
}

#[test]
fn candidates_of_both_families_wait_for_the_one_answer() {
    let mut context = RunContext::new(
        options(Interactive::Once, false),
        config(
            vec![("tmp", temporary(100, "^/store/", 30))],
            vec![("system", profile_config(Some(4)))],
        ),
        current(),
        0,
    );
    let mut links = generation_links();
    links.push(link("old", "/store/old", 99));
    context.gc_roots(&links).unwrap();
    let mut script = script(vec![Some(true)]);
    script.profile = sys_probe;
    let (effects, queries) = drive(&mut context, script).unwrap();
    assert_eq!(
        queries,
        vec!["profile /profiles/sys", "profile /profiles/gone", "confirm"]
    );
    assert_eq!(deleted(&effects), vec!["/store/old", "/profiles/sys-1-link"]);
    assert_eq!(emitted(&effects), vec![(false, "/store/old"), (true, "/profiles/sys-1-link")]);
    assert_eq!(
        told(&effects),
        vec![
            (Action::AboutToRemove, "tmp", "/store/old", false),
            (Action::AboutToRemove, "system", "/profiles/sys-1-link", false),
            (Action::Remove, "tmp", "/store/old", false),
            (Action::Remove, "system", "/profiles/sys-1-link", false),
        ]
    );
}

#[test]
fn a_profile_that_cannot_be_judged_ends_the_run() {
    let mut rules = profile_config(Some(1));
    rules.keep_booted_system = true;
    let mut context = RunContext::new(
        options(Interactive::Never, false),
        config(Vec::new(), vec![("system", rules)]),
        current(),
        0,
    );
    context.gc_roots(&generation_links()).unwrap();
    let mut script = script(Vec::new());
    script.profile = sys_probe;
    assert_eq!(drive(&mut context, script).unwrap_err(), RunError::BootedSystem);
}

fn broken_profile(_: &str) -> ProfileProbe {
    ProfileProbe {
        metadata: StatOutcome::Found(Metadata { uid: 0, modified: None }),
        current_generation: None,
        listing: Listing::Unreadable,
    }
}

#[test]
fn a_profile_that_cannot_be_read_ends_the_run() {
    let mut context = profile_run(Interactive::Never, Some(2));
    let mut script = script(Vec::new());
    script.profile = broken_profile;
    assert_eq!(drive(&mut context, script).unwrap_err(), RunError::ProfileLink);
}

fn unseen_profile(_: &str) -> ProfileProbe {
    ProfileProbe {
        metadata: StatOutcome::Failed,
        current_generation: None,
        listing: Listing::Unreadable,
    }
}

#[test]
fn a_profile_that_cannot_be_looked_at_is_passed_over() {
    let mut context = profile_run(Interactive::Never, Some(2));
    let mut script = script(Vec::new());
    script.profile = unseen_profile;
    let (effects, queries) = drive(&mut context, script).unwrap();
    assert_eq!(queries.len(), 2);
    assert!(effects.is_empty());
    let summary = context.finish().unwrap();
    assert_eq!((summary.monitored, summary.expired, summary.removed), (0, 0, 0));
}

#[test]
fn the_longest_name_of_a_policy_is_measured_in_bytes() {
    let context = RunContext::new(
        options(Interactive::Never, false),
        config(
            vec![("tmp", temporary(100, ".*", 30)), ("résultat", temporary(1, ".*", 30))],
            vec![("system", profile_config(Some(1)))],
        ),
        current(),
        0,
    );
    assert_eq!(context.policy_name_max_len, 9);
    let bare = RunContext::new(
        options(Interactive::Never, false),
        config(Vec::new(), Vec::new()),
        current(),
        0,
    );
    assert_eq!(bare.policy_name_max_len, 0);
}

#[test]
fn a_run_without_statistics_ends_without_figures() {
    let mut quiet = options(Interactive::Never, false);
    quiet.no_statistic = true;
    let context = RunContext::new(quiet, config(Vec::new(), Vec::new()), current(), 0);
    assert_eq!(context.finish(), None);
}

#[test]
fn the_output_goes_where_the_options_say() {
    let mut options = options(Interactive::Never, false);
    assert!(matches!(RunContext::output_writer(&options), OutputTarget::Discard));
    options.output = Some("-".to_string());
    assert!(matches!(
        RunContext::output_writer(&options),
        OutputTarget::Stdout { buffered: true }
    ));
    options.output_unbuffered = true;
    assert!(matches!(
        RunContext::output_writer(&options),
        OutputTarget::Stdout { buffered: false }
    ));
    options.output = Some("/tmp/removed".to_string());
    match RunContext::output_writer(&options) {
        OutputTarget::File { path, buffered } => {
            assert_eq!(path, "/tmp/removed");
            assert!(!buffered);
        }
        other => panic!("not a file: {:?}", other),
    }
}

#[test]
fn paths_are_written_with_the_delimiter_between_them() {
    let mut output = Output::new();
    let mut text = String::new();
    for path in ["/a", "/b", "/c"] {
        match output.output(path.to_string()) {
            Effect::Emit { after_delimiter, path } => {
                text.push_str(&Output::render(after_delimiter, &path, "\0"));
            }
            other => panic!("not written: {:?}", other),
        }
    }
    assert_eq!(text, "/a\0/b\0/c");
    assert_eq!(Output::render(true, "/x", ", "), ", /x");
    assert_eq!(Output::render(false, "/x", ", "), "/x");
}

#[test]
fn actions_have_their_words() {
    assert_eq!(Action::Remove.label(), "Remove");
    assert_eq!(Action::AboutToRemove.label(), "About to remove");
    assert_eq!(Action::Ignored.label(), "Ignore");
    assert_eq!(Action::Remove.colour(), Colour::Green);
    assert_eq!(Action::AboutToRemove.colour(), Colour::Blue);
    assert_eq!(Action::Ignored.colour(), Colour::Cyan);
}

#[test]
fn modes_have_their_words() {
    assert_eq!(Interactive::Never.name(), "never");
    assert_eq!(Interactive::Once.name(), "once");
    assert_eq!(Interactive::Always.name(), "always");
}

#[test]
fn a_link_becomes_the_record_of_a_root() {
    let context = RunContext::new(
        options(Interactive::Never, false),
        config(Vec::new(), Vec::new()),
        current(),
        0,
    );
    let root = context
        .filter_and_map_to_gc_root(
            &LinkProbe {
                link_path: "/roots/a".to_string(),
                target: Some("/home/u/result".to_string()),
                metadata: StatOutcome::Found(Metadata {
                    uid: 1234,
                    modified: Some(Timestamp { nanos: NOW.nanos - 3 * DAY }),
                }),
                canonical: Some("/store/abc-result".to_string()),
                owner_home: Some("/home/u".to_string()),
            },
            7,
        )
        .unwrap()
        .unwrap();
    assert_eq!(root.owner_home, Some("/home/u".to_string()));
    assert_eq!(root.path, "/home/u/result");
    assert_eq!(root.link_path, "/roots/a");
    assert_eq!(root.store_path, "/store/abc-result");
    assert_eq!(root.path_metadata.uid, 1234);
    assert_eq!(root.age, days(3));
    assert_eq!(context.path_to_remove(&root), "/home/u/result");
    let mut removing_roots = config(Vec::new(), Vec::new());
    removing_roots.remove_root = true;
    let context =
        RunContext::new(options(Interactive::Never, true), removing_roots, current(), 0);
    assert_eq!(context.path_to_remove(&root), "/roots/a");
    match context.notify_action(&"tmp".to_string(), &root, Action::Remove) {
        Effect::Notify(notice) => {
            assert_eq!(notice.policy_name, "tmp");
            assert_eq!(notice.action, Action::Remove);
            assert!(notice.dry_run);
            assert_eq!(notice.path, "/roots/a");
            assert_eq!(notice.age, days(3));
        }
        other => panic!("not a notice: {:?}", other),
    }
    match context.notify_action(&"tmp".to_string(), &root, Action::AboutToRemove) {
        Effect::Notify(notice) => assert!(!notice.dry_run),
        other => panic!("not a notice: {:?}", other),
    }
}

#[test]
fn the_run_reads_a_profile_against_its_own_roots() {
    let mut context = profile_run(Interactive::Never, Some(2));
    let profile = context
        .filter_and_read_profile("/profiles/sys", &sys_probe("/profiles/sys"))
        .unwrap()
        .unwrap();
    let numbers: Vec<usize> = profile.generations.iter().map(|g| g.number).collect();
    assert_eq!(numbers, vec![5, 4, 3, 2, 1]);
    assert_eq!(profile.generations[0].root.link_path, "/roots/g5");
    assert_eq!(profile.generations[0].root.store_path, "/store/system-5");
    context.gc_roots(&Vec::new()).unwrap();
    let empty = context
        .filter_and_read_profile("/profiles/sys", &sys_probe("/profiles/sys"))
        .unwrap()
        .unwrap();
    assert!(empty.generations.is_empty());
    assert!(context
        .filter_and_read_profile("/profiles/gone", &sys_probe("/profiles/gone"))
        .unwrap()
        .is_none());
}

fn old_generation_links() -> Vec<LinkProbe> {
    (1..=5)
        .map(|n| LinkProbe {
            link_path: format!("/roots/g{}", n),
            target: Some(format!("/profiles/sys-{}-link", n)),
            metadata: StatOutcome::Found(Metadata {
                uid: 0,
                modified: Some(Timestamp { nanos: NOW.nanos - 50 * DAY }),
            }),
            canonical: Some(format!("/store/system-{}", n)),
            owner_home: None,
        })
        .collect()
}

fn both_families(interactive: Interactive, dry_run: bool) -> RunContext {
    let mut context = RunContext::new(
        options(interactive, dry_run),
        config(
            vec![("tmp", temporary(100, "sys-[12]-", 30))],
            vec![("system", profile_config(Some(2)))],
        ),
        current(),
        0,
    );
    context.gc_roots(&old_generation_links()).unwrap();
    context
}

#[test]
fn one_policy_at_most_takes_a_root() {
    for interactive in [Interactive::Never, Interactive::Once, Interactive::Always] {
        for dry_run in [false, true] {
            let mut context = both_families(interactive, dry_run);
            let mut script = script(vec![Some(true); 5]);
            script.profile = sys_probe;
            let (trace, _) = drive(&mut context, script).unwrap();
            let mut written: Vec<&str> = emitted(&trace).iter().map(|e| e.1).collect();
            written.sort();
            assert_eq!(
                written,
                vec!["/profiles/sys-1-link", "/profiles/sys-2-link", "/profiles/sys-3-link"]
            );
            if !dry_run {
                let mut gone = deleted(&trace);
                gone.sort();
                assert_eq!(gone, written);
            }
            let removals: Vec<(&str, &str)> = told(&trace)
                .iter()
                .filter(|t| t.0 == Action::Remove)
                .map(|t| (t.1, t.2))
                .collect();
            assert_eq!(removals.len(), 3);
            assert!(removals.contains(&("tmp", "/profiles/sys-1-link")));
            assert!(removals.contains(&("tmp", "/profiles/sys-2-link")));
            assert!(removals.contains(&("system", "/profiles/sys-3-link")));
            assert!(context.statistic.removed.get() <= context.statistic.traversed.get());
            let summary = context.finish().unwrap();
            assert_eq!(
                (summary.traversed, summary.expired, summary.removed, summary.kept),
                (5, 3, 3, 2)
            );
        }
    }
}

#[test]
fn a_root_that_the_operator_spared_is_not_offered_again() {
    let mut context = both_families(Interactive::Always, false);
    let mut script = script(vec![Some(false), Some(false), Some(true)]);
    script.profile = sys_probe;
    let (trace, queries) = drive(&mut context, script).unwrap();
    assert_eq!(queries.iter().filter(|q| q.as_str() == "confirm").count(), 3);
    assert_eq!(deleted(&trace), vec!["/profiles/sys-3-link"]);
    let summary = context.finish().unwrap();
    assert_eq!((summary.expired, summary.removed, summary.kept), (3, 1, 4));
}

#[test]
fn a_link_that_was_found_twice_is_one_root() {
    let mut context = RunContext::new(
        options(Interactive::Never, false),
        config(vec![("tmp", temporary(100, ".*", 30))], Vec::new()),
        current(),
        0,
    );
    context
        .gc_roots(&vec![
            link("b", "/store/y", 40),
            link("a", "/store/x", 40),
            link("b", "/store/y", 40),
        ])
        .unwrap();
    let (trace, _) = drive(&mut context, script(Vec::new())).unwrap();
    assert_eq!(deleted(&trace), vec!["/store/y", "/store/x"]);
    assert_eq!(context.taken, vec![true, true, false]);
    let summary = context.finish().unwrap();
    assert_eq!(
        (summary.traversed, summary.monitored, summary.expired, summary.removed, summary.kept),
        (3, 3, 2, 2, 1)
    );
}

#[test]
fn a_deletion_that_failed_ends_the_run_and_counts_nothing() {
    let mut context = one_policy(Interactive::Never, false);
    let mut failing = script(Vec::new());
    failing.delete = deletion_fails;
    assert_eq!(drive(&mut context, failing).unwrap_err(), RunError::Remove { root: 1 });
    assert_eq!(context.statistic.removed.get(), 0);
    assert!(context.output.first_output);
    assert_eq!(context.stage, Stage::DeletingRoot { root: 1 });
    assert_eq!(context.path_to_remove(&context.gc_roots[1]), "/store/y");
}

#[test]
fn the_removal_is_counted_once_the_file_is_deleted() {
    let mut context = one_policy(Interactive::Never, false);
    context.run(Event::Continue).unwrap();
    let step = context.run(Event::Continue).unwrap();
    assert_eq!(step.effects.len(), 1);
    assert!(matches!(&step.query, Query::Delete { path } if path == "/store/y"));
    assert_eq!(context.statistic.removed.get(), 0);
    assert_eq!(context.run(Event::Continue).unwrap_err(), RunError::UnexpectedEvent);
    let step = context.run(Event::Deleted(true)).unwrap();
    assert!(matches!(
        &step.effects[0],
        Effect::Emit { after_delimiter: false, path } if path == "/store/y"
    ));
    assert_eq!(context.statistic.removed.get(), 1);
    assert!(!context.output.first_output);
}

#[test]
fn a_rehearsal_hears_of_no_deletion() {
    let mut context = one_policy(Interactive::Never, true);
    context.run(Event::Continue).unwrap();
    let step = context.run(Event::Continue).unwrap();
    assert!(matches!(step.query, Query::Continue));
    assert_eq!(context.run(Event::Deleted(true)).unwrap_err(), RunError::UnexpectedEvent);
    assert_eq!(context.statistic.removed.get(), 0);
    context.run(Event::Continue).unwrap();
    assert_eq!(context.statistic.removed.get(), 1);
}

#[test]
fn a_step_that_fails_leaves_the_run_as_it_was() {
    let mut context = three_expired(Interactive::Always, false);
    context.run(Event::Continue).unwrap();
    let stage = context.stage;
    assert_eq!(context.run(Event::Answer(None)).unwrap_err(), RunError::Prompt);
    assert_eq!(context.stage, stage);
    assert_eq!(context.taken, vec![true, false, false, false]);
    assert_eq!(context.statistic.expired.get(), 1);
    assert_eq!(context.statistic.removed.get(), 0);
}

#[test]
fn the_home_of_the_owner_decides_what_is_ignored() {
    let mut rules = temporary(100, ".*", 30);
    rules.ignore_prefixes_in_home = vec![".cache".to_string()];
    let mut context = RunContext::new(
        options(Interactive::Never, true),
        config(vec![("tmp", rules)], Vec::new()),
        current(),
        0,
    );
    let mut of_owner = link("a", "/home/owner/.cache/x", 40);
    of_owner.canonical = Some("/store/x".to_string());
    of_owner.owner_home = Some("/home/owner".to_string());
    let mut of_another = link("b", "/home/owner/.cache/y", 40);
    of_another.canonical = Some("/store/y".to_string());
    of_another.owner_home = Some("/home/runner".to_string());
    let mut of_nobody = link("c", "/home/owner/.cache/z", 40);
    of_nobody.canonical = Some("/store/z".to_string());
    context.gc_roots(&vec![of_owner, of_another, of_nobody]).unwrap();
    assert_eq!(context.gc_roots[0].owner_home, Some("/home/owner".to_string()));
    let (trace, _) = drive(&mut context, script(Vec::new())).unwrap();
    let paths: Vec<&str> = emitted(&trace).iter().map(|e| e.1).collect();
    assert_eq!(paths, vec!["/home/owner/.cache/y", "/home/owner/.cache/z"]);
}

#[test]
fn the_owner_of_a_target_is_the_user_to_look_up() {
    assert_eq!(angrr::run::owner(&found(77)), Some(77));
    assert_eq!(angrr::run::owner(&StatOutcome::NotFound), None);
    assert_eq!(angrr::run::owner(&StatOutcome::PermissionDenied), None);
    assert_eq!(angrr::run::owner(&StatOutcome::Failed), None);
    assert_eq!(angrr::run::owner_home(&StatOutcome::NotFound), None);
}

#[test]
fn starting_the_run_sets_the_account_to_its_beginning() {
    let mut context = three_expired(Interactive::Never, true);
    drive(&mut context, script(Vec::new())).unwrap();
    assert_eq!(context.statistic.removed.get(), 3);
    context.gc_roots(&two_links()).unwrap();
    assert_eq!(context.stage, Stage::Matching { root: 0, policy: 0 });
    assert_eq!(context.taken, vec![false, false]);
    assert!(context.waiting.is_empty());
    assert_eq!(context.statistic.traversed.get(), 2);
    assert_eq!(context.statistic.removed.get(), 0);
    assert_eq!(context.statistic.expired.get(), 0);
    let unreadable = LinkProbe {
        link_path: "/roots/z".to_string(),
        target: None,
        metadata: StatOutcome::Failed,
        canonical: None,
        owner_home: None,
    };
    assert_eq!(context.gc_roots(&vec![unreadable]), Err(RunError::ReadLink { index: 0 }));
    assert_eq!(context.gc_roots.len(), 2);
    assert_eq!(context.statistic.traversed.get(), 2);
}
