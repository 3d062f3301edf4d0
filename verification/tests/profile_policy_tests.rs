use angrr::config::{CommonPolicyConfig, ProfileConfig};
use angrr::current::Current;
use angrr::error::RunError;
use angrr::gc_root::{GcRoot, Metadata};
use angrr::policy::profile::{unkept, ProfilePolicy};
use angrr::profile::{Generation, Profile};
use angrr::time::{Duration, Timestamp};

const DAY: u64 = 86400;

fn metadata() -> Metadata {
    Metadata { uid: 0, modified: Some(Timestamp { nanos: 0 }) }
}

fn generation(profile: &str, number: usize, age_days: u64) -> Generation {
    Generation {
        number,
        root: GcRoot {
            path: format!("/profiles/{}-{}-link", profile, number),
            path_metadata: metadata(),
            owner_home: None,
            link_path: format!("/gcroots/auto/{}", number),
            store_path: format!("/nix/store/system-{}", number),
            age: Duration::from_secs(age_days * DAY),
        },
    }
}

/// The profile `sys` with the generations 5 down to 1, of which the one
/// numbered `current` is the current one; generation `n` is `6 - n` days old.
fn profile(current: usize) -> Profile {
    Profile {
        path: "/profiles/sys".to_string(),
        path_metadata: metadata(),
        current_generation: format!("sys-{}-link", current),
        generations: (1..=5usize).rev().map(|n| generation("sys", n, 6 - n as u64)).collect(),
    }
}

fn config() -> ProfileConfig {
    ProfileConfig {
        common: CommonPolicyConfig { enable: true },
        profile_paths: vec!["/profiles/sys".to_string()],
        keep_since: None,
        keep_latest_n: None,
        keep_current_system: false,
        keep_booted_system: false,
    }
}

fn current(booted: Option<&str>, system: Option<&str>) -> Current {
    Current::new(
        Timestamp { nanos: 0 },
        booted.map(|s| s.to_string()),
        system.map(|s| s.to_string()),
    )
}

fn keep(config: ProfileConfig, profile: &Profile, current: &Current) -> Vec<bool> {
    ProfilePolicy::new("p".to_string(), config).run(profile, current).unwrap()
}

#[test]
fn the_two_latest_of_five_survive() {
    let mut config = config();
    config.keep_latest_n = Some(2);
    let profile = profile(5);
    let keep = keep(config, &profile, &current(None, None));
    assert_eq!(keep, vec![true, true, false, false, false]);
    let candidates: Vec<usize> = profile
        .generations
        .iter()
        .zip(keep.iter())
        .filter(|(_, kept)| !**kept)
        .map(|(g, _)| g.number)
        .collect();
    assert_eq!(candidates, vec![3, 2, 1]);
    let survivors: Vec<usize> = profile
        .generations
        .iter()
        .zip(keep.iter())
        .filter(|(_, kept)| **kept)
        .map(|(g, _)| g.number)
        .collect();
    assert_eq!(survivors, vec![5, 4]);
}

#[test]
fn the_current_generation_is_always_kept() {
    assert_eq!(
        keep(config(), &profile(3), &current(None, None)),
        vec![false, false, true, false, false]
    );
    let mut with_count = config();
    with_count.keep_latest_n = Some(1);
    assert_eq!(
        keep(with_count, &profile(1), &current(None, None)),
        vec![true, false, false, false, true]
    );
}

#[test]
fn the_current_generation_is_found_by_its_file_name() {
    let mut profile = profile(2);
    profile.current_generation = "/some/where/else/sys-2-link".to_string();
    assert_eq!(
        keep(config(), &profile, &current(None, None)),
        vec![false, false, false, true, false]
    );
    profile.current_generation = "sys-9-link".to_string();
    assert_eq!(keep(config(), &profile, &current(None, None)), vec![false; 5]);
    profile.current_generation = "..".to_string();
    assert_eq!(keep(config(), &profile, &current(None, None)), vec![false; 5]);
}

#[test]
fn only_the_first_of_two_current_generations_is_kept() {
    let mut profile = profile(4);
    profile.generations.push(generation("sys", 4, 9));
    assert_eq!(
        keep(config(), &profile, &current(None, None)),
        vec![false, true, false, false, false, false]
    );
}

#[test]
fn keep_latest_n_keeps_the_smaller_of_n_and_all() {
    for n in 0..8usize {
        let mut config = config();
        config.keep_latest_n = Some(n);
        let mut profile = profile(5);
        profile.current_generation = "none".to_string();
        let keep = keep(config, &profile, &current(None, None));
        assert_eq!(keep.iter().filter(|k| **k).count(), n.min(5));
        for (i, kept) in keep.iter().enumerate() {
            assert_eq!(*kept, i < n);
        }
    }
}

#[test]
fn keep_since_keeps_every_generation_that_is_young_enough() {
    let mut config = config();
    config.keep_since = Some(Duration::from_secs(3 * DAY));
    let mut profile = profile(5);
    profile.current_generation = "none".to_string();
    assert_eq!(
        keep(config, &profile, &current(None, None)),
        vec![true, true, true, false, false]
    );
}

#[test]
fn keep_since_is_a_threshold_and_no_count() {
    let mut config = config();
    config.keep_since = Some(Duration::from_secs(2 * DAY));
    let mut profile = profile(5);
    profile.current_generation = "none".to_string();
    profile.generations[3].root.age = Duration::from_secs(DAY);
    assert_eq!(
        keep(config, &profile, &current(None, None)),
        vec![true, true, false, true, false]
    );
}

#[test]
fn an_age_at_the_threshold_is_kept() {
    let mut config = config();
    config.keep_since = Some(Duration { nanos: 1000 });
    let mut profile = profile(5);
    profile.current_generation = "none".to_string();
    for generation in profile.generations.iter_mut() {
        generation.root.age = Duration { nanos: 1001 };
    }
    profile.generations[2].root.age = Duration { nanos: 1000 };
    assert_eq!(
        keep(config, &profile, &current(None, None)),
        vec![false, false, true, false, false]
    );
}

#[test]
fn the_booted_system_is_kept_where_asked() {
    let mut config = config();
    config.keep_booted_system = true;
    let mut profile = profile(5);
    profile.current_generation = "none".to_string();
    let current = current(Some("/nix/store/system-2"), Some("/nix/store/system-4"));
    assert_eq!(keep(config, &profile, &current), vec![false, false, false, true, false]);
}

#[test]
fn the_current_system_is_kept_where_asked() {
    let mut config = config();
    config.keep_current_system = true;
    let mut profile = profile(5);
    profile.current_generation = "none".to_string();
    let current = current(Some("/nix/store/system-2"), Some("/nix/store//system-4/"));
    assert_eq!(keep(config, &profile, &current), vec![false, true, false, false, false]);
}

#[test]
fn only_the_first_generation_of_the_booted_system_is_kept() {
    let mut config = config();
    config.keep_booted_system = true;
    let mut profile = profile(5);
    profile.current_generation = "none".to_string();
    profile.generations[4].root.store_path = "/nix/store/system-3".to_string();
    let current = current(Some("/nix/store/system-3"), None);
    assert_eq!(keep(config, &profile, &current), vec![false, false, true, false, false]);
}

#[test]
fn system_links_are_not_looked_at_where_not_asked() {
    let current = current(None, None);
    assert_eq!(
        keep(config(), &profile(5), &current),
        vec![true, false, false, false, false]
    );
}

#[test]
fn a_missing_booted_system_ends_the_run() {
    let mut config = config();
    config.keep_booted_system = true;
    config.keep_current_system = true;
    let policy = ProfilePolicy::new("p".to_string(), config);
    assert_eq!(policy.run(&profile(5), &current(None, None)), Err(RunError::BootedSystem));
    assert_eq!(
        policy.run(&profile(5), &current(None, Some("/nix/store/system-1"))),
        Err(RunError::BootedSystem)
    );
}

#[test]
fn a_missing_current_system_ends_the_run() {
    let mut config = config();
    config.keep_booted_system = true;
    config.keep_current_system = true;
    let policy = ProfilePolicy::new("p".to_string(), config);
    assert_eq!(
        policy.run(&profile(5), &current(Some("/nix/store/system-1"), None)),
        Err(RunError::CurrentSystem)
    );
}

#[test]
fn the_grounds_add_up() {
    let mut config = config();
    config.keep_booted_system = true;
    config.keep_current_system = true;
    config.keep_since = Some(Duration::from_secs(DAY));
    config.keep_latest_n = Some(2);
    let current = current(Some("/nix/store/system-1"), Some("/nix/store/system-3"));
    assert_eq!(keep(config, &profile(3), &current), vec![true, true, true, false, true]);
}

#[test]
fn a_further_rule_never_drops_a_kept_generation() {
    let current = current(Some("/nix/store/system-1"), Some("/nix/store/system-2"));
    let profile = profile(3);
    let base = keep(config(), &profile, &current);
    let mut variants: Vec<ProfileConfig> = Vec::new();
    for booted in [false, true] {
        for system in [false, true] {
            for since in [None, Some(0u64), Some(2), Some(9)] {
                for latest in [None, Some(0usize), Some(1), Some(4), Some(7)] {
                    let mut variant = config();
                    variant.keep_booted_system = booted;
                    variant.keep_current_system = system;
                    variant.keep_since = since.map(|days| Duration::from_secs(days * DAY));
                    variant.keep_latest_n = latest;
                    variants.push(variant);
                }
            }
        }
    }
    for variant in variants {
        let more = keep(variant.clone(), &profile, &current);
        for i in 0..base.len() {
            assert!(!base[i] || more[i]);
        }
        let mut richer = variant.clone();
        richer.keep_booted_system = true;
        richer.keep_latest_n = Some(variant.keep_latest_n.unwrap_or(0) + 1);
        let most = keep(richer, &profile, &current);
        for i in 0..more.len() {
            assert!(!more[i] || most[i]);
        }
    }
}

#[test]
fn an_empty_profile_keeps_nothing() {
    let mut profile = profile(1);
    profile.generations.clear();
    let mut config = config();
    config.keep_latest_n = Some(3);
    assert_eq!(keep(config, &profile, &current(None, None)), Vec::<bool>::new());
}

#[test]
fn the_roots_that_are_not_kept_are_the_candidates() {
    let profile = profile(5);
    let roots = unkept(&profile.generations, &vec![true, false, true, false, false]);
    let paths: Vec<&str> = roots.iter().map(|r| r.path.as_str()).collect();
    assert_eq!(
        paths,
        vec!["/profiles/sys-4-link", "/profiles/sys-2-link", "/profiles/sys-1-link"]
    );
    assert!(unkept(&profile.generations, &vec![true; 5]).is_empty());
}

#[test]
fn a_profile_policy_is_made_of_its_name_and_its_rules() {
    let policy = ProfilePolicy::new("system".to_string(), config());
    assert_eq!(policy.name, "system");
    assert_eq!(policy.config.profile_paths, vec!["/profiles/sys".to_string()]);
    assert!(policy.config.common.enable);
}
