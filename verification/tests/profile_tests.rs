use angrr::error::RunError;
use angrr::gc_root::{GcRoot, Metadata, StatOutcome};
use angrr::profile::{
    add_generation, find_root, gather_generations, generation_name, read_profile, DirEntry,
    Generation, GenerationName, Listing, ProfileProbe,
};
use angrr::time::{Duration, Timestamp};

fn metadata(uid: u32) -> Metadata {
    Metadata { uid, modified: Some(Timestamp { nanos: 0 }) }
}

fn root(path: &str, uid: u32) -> GcRoot {
    GcRoot {
        path: path.to_string(),
        path_metadata: metadata(uid),
        owner_home: None,
        link_path: format!("/gcroots/auto{}", path.replace('/', "_")),
        store_path: format!("/nix/store{}", path),
        age: Duration::from_secs(0),
    }
}

fn entry(name: &str) -> Option<DirEntry> {
    Some(DirEntry { path: format!("/profiles/{}", name), file_name: name.to_string() })
}

fn numbers(generations: &Vec<Generation>) -> Vec<usize> {
    generations.iter().map(|g| g.number).collect()
}

fn probe(entries: Vec<Option<DirEntry>>) -> ProfileProbe {
    ProfileProbe {
        metadata: StatOutcome::Found(metadata(1000)),
        current_generation: Some("sys-2-link".to_string()),
        listing: Listing::Entries(entries),
    }
}

#[test]
fn generation_names_are_read() {
    assert_eq!(generation_name("system-5-link", "system"), GenerationName::Number(5));
    assert_eq!(generation_name("system-123-link", "system"), GenerationName::Number(123));
    assert_eq!(generation_name("system-007-link", "system"), GenerationName::Number(7));
    assert_eq!(generation_name("my-profile-1-link", "my-profile"), GenerationName::Number(1));
    assert_eq!(generation_name("-3-link", ""), GenerationName::Number(3));
}

#[test]
fn other_names_are_foreign() {
    assert_eq!(generation_name("system", "system"), GenerationName::Foreign);
    assert_eq!(generation_name("system-link", "system"), GenerationName::Foreign);
    assert_eq!(generation_name("system--link", "system"), GenerationName::Foreign);
    assert_eq!(generation_name("system-5-link", "other"), GenerationName::Foreign);
    assert_eq!(generation_name("system-5-link", "sys"), GenerationName::Foreign);
    assert_eq!(generation_name("system-5-links", "system"), GenerationName::Foreign);
    assert_eq!(generation_name("system-5a-link", "system"), GenerationName::Foreign);
    assert_eq!(generation_name("system-+5-link", "system"), GenerationName::Foreign);
    assert_eq!(generation_name("system_5-link", "system"), GenerationName::Foreign);
    assert_eq!(generation_name("my-profile-1-link", "my"), GenerationName::Foreign);
    assert_eq!(generation_name("", "system"), GenerationName::Foreign);
    assert_eq!(generation_name("xsystem-5-link", "system"), GenerationName::Foreign);
}

#[test]
fn a_profile_with_a_line_feed_in_its_name_has_no_generations() {
    assert_eq!(generation_name("a\nb-5-link", "a\nb"), GenerationName::Foreign);
}

#[test]
fn numbers_that_do_not_fit_are_told_apart() {
    let fits = format!("p-{}-link", usize::MAX);
    assert_eq!(generation_name(&fits, "p"), GenerationName::Number(usize::MAX));
    let too_large = format!("p-{}0-link", usize::MAX);
    assert_eq!(generation_name(&too_large, "p"), GenerationName::TooLarge);
}

#[test]
fn generations_enter_newest_first() {
    let mut generations: Vec<Generation> = Vec::new();
    for number in [3usize, 1, 5, 4, 2] {
        add_generation(&mut generations, Generation { number, root: root("/p", 0) });
    }
    assert_eq!(numbers(&generations), vec![5, 4, 3, 2, 1]);
}

#[test]
fn generations_of_one_number_keep_their_order() {
    let mut generations: Vec<Generation> = Vec::new();
    add_generation(&mut generations, Generation { number: 5, root: root("/first", 0) });
    add_generation(&mut generations, Generation { number: 7, root: root("/top", 0) });
    add_generation(&mut generations, Generation { number: 5, root: root("/second", 0) });
    add_generation(&mut generations, Generation { number: 1, root: root("/last", 0) });
    let paths: Vec<&str> = generations.iter().map(|g| g.root.path.as_str()).collect();
    assert_eq!(paths, vec!["/top", "/first", "/second", "/last"]);
}

#[test]
fn the_last_root_of_a_path_is_found() {
    let mut first = root("/profiles/sys-1-link", 1);
    first.link_path = "/first".to_string();
    let mut second = root("/profiles/sys-1-link", 1);
    second.link_path = "/second".to_string();
    let roots = vec![first, root("/other", 1), second, root("/more", 1)];
    assert_eq!(find_root(&roots, "/profiles/sys-1-link"), Some(2));
    assert_eq!(find_root(&roots, "/other"), Some(1));
    assert_eq!(find_root(&roots, "/missing"), None);
    assert_eq!(find_root(&Vec::new(), "/other"), None);
}

#[test]
fn roots_are_found_by_the_components_of_their_path() {
    let roots = vec![root("/profiles//sys-1-link", 1)];
    assert_eq!(find_root(&roots, "/profiles/sys-1-link"), Some(0));
    assert_eq!(find_root(&roots, "/profiles/sys-1-link/"), Some(0));
    assert_eq!(find_root(&roots, "/profiles/sys-1-linker"), None);
}

#[test]
fn generations_are_gathered_from_the_entries() {
    let roots = vec![
        root("/profiles/sys-1-link", 1),
        root("/profiles/sys-3-link", 1),
        root("/profiles/sys-2-link", 1),
        root("/profiles/other-9-link", 1),
        root("/profiles/sys", 1),
    ];
    let entries = vec![
        entry("sys"),
        entry("sys-2-link"),
        entry("other-9-link"),
        entry("sys-1-link"),
        entry("sys-4-link"),
        entry("sys-3-link"),
    ];
    let generations = gather_generations(&entries, &roots, "sys").unwrap();
    assert_eq!(numbers(&generations), vec![3, 2, 1]);
    assert_eq!(generations[0].root.path, "/profiles/sys-3-link");
    assert_eq!(generations[0].root.store_path, "/nix/store/profiles/sys-3-link");
}

#[test]
fn an_unreadable_entry_ends_the_gathering() {
    let roots = vec![root("/profiles/sys-1-link", 1)];
    let entries = vec![entry("sys-1-link"), None, entry("sys-2-link")];
    assert_eq!(
        gather_generations(&entries, &roots, "sys").unwrap_err(),
        RunError::ProfileEntry { index: 1 }
    );
}

#[test]
fn a_number_that_does_not_fit_ends_the_gathering() {
    let name = format!("sys-{}9-link", usize::MAX);
    let path = format!("/profiles/{}", name);
    let roots = vec![root(&path, 1)];
    let entries = vec![entry("sys-1-link"), entry(&name)];
    assert_eq!(
        gather_generations(&entries, &roots, "sys").unwrap_err(),
        RunError::GenerationNumber { index: 1 }
    );
}

#[test]
fn a_number_that_does_not_fit_is_no_fault_where_no_root_points_at_the_entry() {
    let name = format!("sys-{}9-link", usize::MAX);
    let entries = vec![entry(&name)];
    assert!(gather_generations(&entries, &Vec::new(), "sys").unwrap().is_empty());
}

#[test]
fn a_profile_is_read() {
    let roots = vec![root("/profiles/sys-1-link", 1), root("/profiles/sys-2-link", 1)];
    let profile = read_profile(
        "/profiles/sys",
        &probe(vec![entry("sys-1-link"), entry("sys-2-link"), entry("sys")]),
        &roots,
        false,
        0,
    )
    .unwrap()
    .unwrap();
    assert_eq!(profile.path, "/profiles/sys");
    assert_eq!(profile.path_metadata, metadata(1000));
    assert_eq!(profile.current_generation, "sys-2-link");
    assert_eq!(numbers(&profile.generations), vec![2, 1]);
}

#[test]
fn a_missing_profile_is_passed_over() {
    let mut missing = probe(Vec::new());
    missing.metadata = StatOutcome::NotFound;
    assert!(read_profile("/profiles/sys", &missing, &Vec::new(), false, 0).unwrap().is_none());
    assert!(read_profile("/profiles/sys", &missing, &Vec::new(), true, 0).unwrap().is_none());
}

#[test]
fn a_profile_of_another_user_is_passed_over_where_only_the_own_count() {
    let probe = probe(vec![entry("sys-1-link")]);
    assert!(read_profile("/profiles/sys", &probe, &Vec::new(), true, 1).unwrap().is_none());
    assert!(read_profile("/profiles/sys", &probe, &Vec::new(), true, 1000).unwrap().is_some());
    assert!(read_profile("/profiles/sys", &probe, &Vec::new(), false, 1).unwrap().is_some());
}

#[test]
fn a_profile_that_may_not_be_looked_at_is_passed_over() {
    for metadata in [StatOutcome::PermissionDenied, StatOutcome::Failed] {
        for owned_only in [false, true] {
            let mut unseen = probe(vec![None]);
            unseen.metadata = metadata;
            unseen.current_generation = None;
            assert!(read_profile("/profiles/sys", &unseen, &Vec::new(), owned_only, 0)
                .unwrap()
                .is_none());
        }
    }
}

#[test]
fn a_profile_without_a_name_ends_the_run() {
    assert_eq!(
        read_profile("/", &probe(Vec::new()), &Vec::new(), false, 0).unwrap_err(),
        RunError::ProfileFileName
    );
    assert_eq!(
        read_profile("/profiles/..", &probe(Vec::new()), &Vec::new(), false, 0).unwrap_err(),
        RunError::ProfileFileName
    );
}

#[test]
fn a_profile_whose_link_cannot_be_read_ends_the_run() {
    let mut unread = probe(Vec::new());
    unread.current_generation = None;
    unread.listing = Listing::Unreadable;
    assert_eq!(
        read_profile("/profiles/sys", &unread, &Vec::new(), false, 0).unwrap_err(),
        RunError::ProfileLink
    );
}

#[test]
fn a_profile_whose_directory_cannot_be_listed_ends_the_run() {
    let mut probe = probe(Vec::new());
    probe.listing = Listing::NoParent;
    assert_eq!(
        read_profile("/profiles/sys", &probe, &Vec::new(), false, 0).unwrap_err(),
        RunError::ProfileParent
    );
    probe.listing = Listing::Unreadable;
    assert_eq!(
        read_profile("/profiles/sys", &probe, &Vec::new(), false, 0).unwrap_err(),
        RunError::ProfileDirectory
    );
}

#[test]
fn the_fault_of_an_entry_is_the_fault_of_the_profile() {
    assert_eq!(
        read_profile("/profiles/sys", &probe(vec![None]), &Vec::new(), false, 0).unwrap_err(),
        RunError::ProfileEntry { index: 0 }
    );
}

#[test]
fn copies_of_generations_are_equal_to_them() {
    let generation = Generation { number: 4, root: root("/profiles/sys-4-link", 3) };
    let copy = generation.clone();
    assert_eq!(copy.number, 4);
    assert_eq!(copy.root.path, generation.root.path);
    assert_eq!(copy.root.link_path, generation.root.link_path);
    assert_eq!(copy.root.store_path, generation.root.store_path);
    assert_eq!(copy.root.path_metadata, generation.root.path_metadata);
    assert_eq!(copy.root.owner_home, generation.root.owner_home);
    assert_eq!(copy.root.age, generation.root.age);
}
