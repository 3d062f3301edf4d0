use angrr::config::{
    default_auto_gcroots_dirs, default_keep_booted_system, default_keep_current_system,
    default_policy_enable, default_store_path, default_temporary_policy_priority_default,
    default_temporary_root_ignored_prefixes, default_temporary_root_ignored_prefixes_in_home,
    global_config_file, CommonPolicyConfig, ConfigError, OwnedOnly, ProfileConfig, RunConfig,
    TemporaryRootConfig, Validate,
};
use angrr::filter::Filter;
use angrr::time::Duration;
use regex::bytes::Regex;

fn temporary(priority: usize, enable: bool) -> TemporaryRootConfig {
    TemporaryRootConfig {
        common: CommonPolicyConfig { enable },
        priority,
        path_regex: Regex::new(".*").unwrap(),
        filter: None,
        ignore_prefixes: Vec::new(),
        ignore_prefixes_in_home: Vec::new(),
        period: Some(Duration::from_secs(1)),
    }
}

fn profile(paths: &[&str], enable: bool) -> ProfileConfig {
    ProfileConfig {
        common: CommonPolicyConfig { enable },
        profile_paths: paths.iter().map(|p| p.to_string()).collect(),
        keep_since: None,
        keep_latest_n: Some(3),
        keep_current_system: true,
        keep_booted_system: true,
    }
}

fn run_config() -> RunConfig {
    RunConfig {
        store: "/nix/store".to_string(),
        owned_only: OwnedOnly::Auto,
        remove_root: false,
        directory: vec!["/nix/var/nix/gcroots/auto".to_string()],
        temporary_root_policies: Vec::new(),
        profile_policies: Vec::new(),
    }
}

fn names(policies: &[(String, angrr::policy::temporary::TemporaryRootPolicy)]) -> Vec<&str> {
    policies.iter().map(|(name, _)| name.as_str()).collect()
}

#[test]
fn owned_only_is_settled_by_the_user() {
    assert!(OwnedOnly::Auto.instantiate(1000));
    assert!(!OwnedOnly::Auto.instantiate(0));
    assert!(OwnedOnly::True.instantiate(0));
    assert!(OwnedOnly::True.instantiate(1000));
    assert!(!OwnedOnly::False.instantiate(0));
    assert!(!OwnedOnly::False.instantiate(1000));
    assert_eq!(OwnedOnly::default(), OwnedOnly::Auto);
}

#[test]
fn defaults() {
    assert_eq!(default_store_path(), "/nix/store");
    assert_eq!(default_auto_gcroots_dirs(), vec!["/nix/var/nix/gcroots/auto".to_string()]);
    assert_eq!(
        default_temporary_root_ignored_prefixes(),
        vec!["/nix/var/nix/profiles".to_string()]
    );
    assert_eq!(
        default_temporary_root_ignored_prefixes_in_home(),
        vec![
            ".local/state/nix/profiles".to_string(),
            ".local/state/home-manager/gcroots".to_string(),
            ".cache/nix/flake-registry.json".to_string(),
        ]
    );
    assert!(default_policy_enable());
    assert_eq!(default_temporary_policy_priority_default(), 100);
    assert!(default_keep_current_system());
    assert!(default_keep_booted_system());
}

#[test]
fn the_global_file_is_named_where_it_exists() {
    assert_eq!(global_config_file(true), Some("/etc/angrr/config.toml".to_string()));
    assert_eq!(global_config_file(false), None);
}

#[test]
fn an_empty_configuration_is_valid() {
    assert_eq!(run_config().validate(), Ok(()));
}

#[test]
fn a_sound_configuration_is_valid() {
    let mut config = run_config();
    config.temporary_root_policies.push(("direnv".to_string(), temporary(100, true)));
    config.profile_policies.push(("system".to_string(), profile(&["/profiles/system"], true)));
    config.profile_policies.push(("user".to_string(), profile(&["~/profile", "/p/other"], true)));
    assert_eq!(config.validate(), Ok(()));
}

#[test]
fn an_enabled_temporary_policy_needs_a_period() {
    let mut config = run_config();
    config.temporary_root_policies.push(("a".to_string(), temporary(1, true)));
    let mut without = temporary(2, true);
    without.period = None;
    config.temporary_root_policies.push(("b".to_string(), without));
    let mut also_without = temporary(3, true);
    also_without.period = None;
    config.temporary_root_policies.push(("c".to_string(), also_without));
    assert_eq!(config.validate(), Err(ConfigError::MissingPeriod { policy: 1 }));
}

#[test]
fn a_disabled_temporary_policy_needs_no_period() {
    let mut config = run_config();
    let mut without = temporary(2, false);
    without.period = None;
    config.temporary_root_policies.push(("b".to_string(), without));
    assert_eq!(config.validate(), Ok(()));
}

#[test]
fn an_enabled_profile_policy_needs_a_rule_to_keep_by() {
    let mut config = run_config();
    config.profile_policies.push(("fine".to_string(), profile(&["/a"], true)));
    let mut without = profile(&["/b"], true);
    without.keep_latest_n = None;
    config.profile_policies.push(("bare".to_string(), without));
    assert_eq!(config.validate(), Err(ConfigError::MissingKeepRule { policy: 1 }));
}

#[test]
fn either_rule_is_enough() {
    let mut config = run_config();
    let mut since = profile(&["/b"], true);
    since.keep_latest_n = None;
    since.keep_since = Some(Duration::from_secs(5));
    config.profile_policies.push(("since".to_string(), since));
    assert_eq!(config.validate(), Ok(()));
}

#[test]
fn a_disabled_profile_policy_needs_no_rule() {
    let mut config = run_config();
    let mut without = profile(&["/b"], false);
    without.keep_latest_n = None;
    config.profile_policies.push(("bare".to_string(), without));
    assert_eq!(config.validate(), Ok(()));
}

#[test]
fn profile_paths_are_absolute_or_begin_with_a_tilde() {
    let mut config = run_config();
    config.profile_policies.push(("fine".to_string(), profile(&["/a", "~/b", "~"], true)));
    config.profile_policies.push(("bad".to_string(), profile(&["/c", "d/e", "f"], false)));
    assert_eq!(config.validate(), Err(ConfigError::RelativeProfilePath { policy: 1, path: 1 }));
}

#[test]
fn a_tilde_counts_only_as_a_whole_component() {
    let mut config = run_config();
    config.profile_policies.push(("bad".to_string(), profile(&["~user/profile"], true)));
    assert_eq!(config.validate(), Err(ConfigError::RelativeProfilePath { policy: 0, path: 0 }));
}

#[test]
fn a_missing_rule_is_found_before_a_relative_path() {
    let mut config = run_config();
    let mut bad = profile(&["relative"], true);
    bad.keep_latest_n = None;
    config.profile_policies.push(("bad".to_string(), bad));
    assert_eq!(config.validate(), Err(ConfigError::MissingKeepRule { policy: 0 }));
}

#[test]
fn two_policies_may_not_claim_one_profile() {
    let mut config = run_config();
    config.profile_policies.push(("a".to_string(), profile(&["/p/one", "/p/two"], true)));
    config.profile_policies.push(("b".to_string(), profile(&["/p/three"], true)));
    config.profile_policies.push(("c".to_string(), profile(&["/p/four", "/p/two"], false)));
    assert_eq!(config.validate(), Err(ConfigError::DuplicateProfilePath));
}

#[test]
fn paths_are_the_same_where_their_components_are() {
    let mut config = run_config();
    config.profile_policies.push(("a".to_string(), profile(&["/p/one"], true)));
    config.profile_policies.push(("b".to_string(), profile(&["/p//one/"], true)));
    assert_eq!(config.validate(), Err(ConfigError::DuplicateProfilePath));
}

#[test]
fn a_shared_path_is_found_before_any_other_fault() {
    let mut config = run_config();
    let mut without = temporary(2, true);
    without.period = None;
    config.temporary_root_policies.push(("t".to_string(), without));
    config.profile_policies.push(("a".to_string(), profile(&["/p/one"], true)));
    config.profile_policies.push(("b".to_string(), profile(&["/p/one"], true)));
    assert_eq!(config.validate(), Err(ConfigError::DuplicateProfilePath));
}

#[test]
fn a_fault_of_a_temporary_policy_is_found_before_one_of_a_profile_policy() {
    let mut config = run_config();
    let mut without = temporary(2, true);
    without.period = None;
    config.temporary_root_policies.push(("t".to_string(), without));
    config.profile_policies.push(("bad".to_string(), profile(&["relative"], true)));
    assert_eq!(config.validate(), Err(ConfigError::MissingPeriod { policy: 0 }));
}

#[test]
fn enabled_policies_are_ordered_by_priority_then_name() {
    let mut config = run_config();
    for (name, priority, enable) in [
        ("zeta", 100, true),
        ("beta", 200, true),
        ("off", 1, false),
        ("alpha", 100, true),
        ("last", 300, true),
        ("first", 5, true),
        ("Alpha", 100, true),
        ("alphabet", 100, true),
    ] {
        config.temporary_root_policies.push((name.to_string(), temporary(priority, enable)));
    }
    let policies = config.enabled_temporary_root_policies();
    assert_eq!(
        names(&policies),
        vec!["first", "Alpha", "alpha", "alphabet", "zeta", "beta", "last"]
    );
    for (name, policy) in &policies {
        assert_eq!(name, &policy.name);
        assert!(policy.config.common.enable);
    }
    assert_eq!(policies[0].1.config.priority, 5);
    assert_eq!(policies[5].1.config.priority, 200);
}

#[test]
fn the_name_breaks_ties_of_priority() {
    let mut config = run_config();
    config.temporary_root_policies.push(("B".to_string(), temporary(100, true)));
    config.temporary_root_policies.push(("A".to_string(), temporary(100, true)));
    assert_eq!(names(&config.enabled_temporary_root_policies()), vec!["A", "B"]);
    config.temporary_root_policies.reverse();
    assert_eq!(names(&config.enabled_temporary_root_policies()), vec!["A", "B"]);
}

#[test]
fn the_order_does_not_depend_on_the_order_of_the_configuration() {
    let entries = [("m", 3usize), ("a", 7), ("z", 1), ("k", 3), ("b", 7), ("c", 0)];
    let mut expected: Vec<(usize, &str)> = entries.iter().map(|(n, p)| (*p, *n)).collect();
    expected.sort();
    let expected: Vec<&str> = expected.into_iter().map(|(_, n)| n).collect();
    for rotation in 0..entries.len() {
        let mut config = run_config();
        for i in 0..entries.len() {
            let (name, priority) = entries[(i + rotation) % entries.len()];
            config.temporary_root_policies.push((name.to_string(), temporary(priority, true)));
        }
        assert_eq!(names(&config.enabled_temporary_root_policies()), expected);
    }
}

#[test]
fn policies_are_copied_with_all_their_rules() {
    let mut config = run_config();
    let mut full = temporary(9, true);
    full.path_regex = Regex::new("/result.*$").unwrap();
    full.filter = Some(Filter { program: "/bin/f".to_string(), arguments: vec!["x".to_string()] });
    full.ignore_prefixes = vec!["/a".to_string(), "/b".to_string()];
    full.ignore_prefixes_in_home = vec![".c".to_string()];
    full.period = Some(Duration::from_secs(77));
    config.temporary_root_policies.push(("full".to_string(), full));
    let policies = config.enabled_temporary_root_policies();
    let copy = &policies[0].1.config;
    assert_eq!(copy.priority, 9);
    assert_eq!(copy.path_regex.as_str(), "/result.*$");
    assert_eq!(copy.filter.as_ref().unwrap().program, "/bin/f");
    assert_eq!(copy.filter.as_ref().unwrap().arguments, vec!["x".to_string()]);
    assert_eq!(copy.ignore_prefixes, vec!["/a".to_string(), "/b".to_string()]);
    assert_eq!(copy.ignore_prefixes_in_home, vec![".c".to_string()]);
    assert_eq!(copy.period, Some(Duration::from_secs(77)));
}

#[test]
fn enabled_profile_policies_stay_in_the_order_of_the_configuration() {
    let mut config = run_config();
    config.profile_policies.push(("b".to_string(), profile(&["/p/b"], true)));
    config.profile_policies.push(("off".to_string(), profile(&["/p/off"], false)));
    config.profile_policies.push(("a".to_string(), profile(&["/p/a", "~/x"], true)));
    let policies = config.enabled_profile_policies();
    let names: Vec<&str> = policies.iter().map(|(name, _)| name.as_str()).collect();
    assert_eq!(names, vec!["b", "a"]);
    assert_eq!(policies[1].1.name, "a");
    assert_eq!(policies[1].1.config.profile_paths, vec!["/p/a".to_string(), "~/x".to_string()]);
    assert_eq!(policies[1].1.config.keep_latest_n, Some(3));
    assert!(policies[1].1.config.keep_booted_system);
}

#[test]
fn each_policy_finds_its_own_fault() {
    let mut without = temporary(1, true);
    without.period = None;
    assert_eq!(without.validate(4), Some(ConfigError::MissingPeriod { policy: 4 }));
    assert_eq!(temporary(1, true).validate(4), None);
    let mut bare = profile(&["/p"], true);
    bare.keep_latest_n = None;
    assert_eq!(bare.validate(2), Some(ConfigError::MissingKeepRule { policy: 2 }));
    assert_eq!(
        profile(&["/p", "q"], true).validate(3),
        Some(ConfigError::RelativeProfilePath { policy: 3, path: 1 })
    );
    assert_eq!(profile(&["/p", "~/q"], true).validate(3), None);
    assert_eq!(profile(&[], true).validate(0), None);
}

#[test]
fn policies_of_one_kind_are_told_apart_by_their_names() {
    let mut config = run_config();
    assert!(config.well_formed());
    config.temporary_root_policies.push(("a".to_string(), temporary(1, true)));
    config.temporary_root_policies.push(("b".to_string(), temporary(1, true)));
    config.profile_policies.push(("a".to_string(), profile(&["/p"], true)));
    config.profile_policies.push(("b".to_string(), profile(&["/q"], true)));
    assert!(config.well_formed());
    config.temporary_root_policies.push(("a".to_string(), temporary(9, false)));
    assert!(!config.well_formed());
    config.temporary_root_policies.pop();
    config.profile_policies.push(("c".to_string(), profile(&["/r"], true)));
    config.profile_policies.push(("b".to_string(), profile(&["/s"], true)));
    assert!(!config.well_formed());
}
