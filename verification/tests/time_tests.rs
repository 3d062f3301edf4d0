use angrr::time::{Duration, Timestamp, NANOS_PER_SEC};

#[test]
fn elapsed_is_clamped_at_zero() {
    let now = Timestamp { nanos: 5 };
    let later = Timestamp { nanos: 9 };
    assert_eq!(now.elapsed_since(&later), Duration { nanos: 0 });
    assert_eq!(later.elapsed_since(&now), Duration { nanos: 4 });
}

#[test]
fn elapsed_across_the_epoch() {
    let before = Timestamp { nanos: -7 };
    let after = Timestamp { nanos: 3 };
    assert_eq!(after.elapsed_since(&before), Duration { nanos: 10 });
    assert_eq!(before.elapsed_since(&after), Duration { nanos: 0 });
}

#[test]
fn elapsed_between_two_times_before_the_epoch() {
    let earlier = Timestamp { nanos: -20 };
    let later = Timestamp { nanos: -5 };
    assert_eq!(later.elapsed_since(&earlier), Duration { nanos: 15 });
}

#[test]
fn elapsed_over_the_whole_range() {
    let earliest = Timestamp { nanos: i128::MIN };
    let latest = Timestamp { nanos: i128::MAX };
    assert_eq!(latest.elapsed_since(&earliest), Duration { nanos: u128::MAX });
    assert_eq!(latest.elapsed_since(&latest), Duration::zero());
}

#[test]
fn duration_from_seconds() {
    assert_eq!(Duration::from_secs(0), Duration::zero());
    assert_eq!(Duration::from_secs(3).nanos, 3_000_000_000);
    assert_eq!(Duration::from_secs(u64::MAX).nanos, u64::MAX as u128 * NANOS_PER_SEC);
}

#[test]
fn duration_parts() {
    let d = Duration { nanos: 2_500_000_001 };
    assert_eq!(d.as_secs(), 2);
    assert_eq!(d.subsec_nanos(), 500_000_001);
}

#[test]
fn duration_seconds_saturate() {
    let d = Duration { nanos: u128::MAX };
    assert_eq!(d.as_secs(), u64::MAX);
    assert!(d.subsec_nanos() < 1_000_000_000);
}
