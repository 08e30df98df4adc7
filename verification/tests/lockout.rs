use face_auth_core::config::FaceAuthConfig;
use face_auth_core::lockout::{
    after_attempt, check, record_failure, record_success, remaining_cooldown, Lockout, LockoutPolicy,
    LockoutState,
};
use face_auth_core::FaceAuth;

const NOW: u64 = 1_753_000_000_000;

fn policy_default_base_plus_margin() -> u64 {
    LockoutPolicy::default().base_delay_ms + 1_000
}

#[test]
fn no_cooldown_below_threshold() {
    let state = LockoutState { failures: 4, last_failure_unix_ms: NOW };
    let policy = LockoutPolicy::default();
    assert!(remaining_cooldown(&state, &policy, NOW).is_none());
}

#[test]
fn cooldown_active_just_past_threshold() {
    let state = LockoutState { failures: 5, last_failure_unix_ms: NOW };
    let policy = LockoutPolicy::default();
    let remaining = remaining_cooldown(&state, &policy, NOW).expect("should be in cooldown");
    assert!(remaining > 0);
    assert!(remaining as u128 <= policy.base_delay_ms as u128);
}

#[test]
fn cooldown_expires_after_elapsed_time() {
    let state = LockoutState {
        failures: 5,
        last_failure_unix_ms: NOW.saturating_sub(policy_default_base_plus_margin()),
    };
    let policy = LockoutPolicy::default();
    assert!(remaining_cooldown(&state, &policy, NOW).is_none());
}

#[test]
fn cooldown_caps_at_max_delay() {
    let state = LockoutState { failures: 1_000, last_failure_unix_ms: NOW };
    let policy = LockoutPolicy::default();
    let remaining = remaining_cooldown(&state, &policy, NOW).expect("should be in cooldown");
    assert!(remaining as u128 <= policy.max_delay_ms as u128);
}

#[test]
fn cooldown_doubles_per_failure() {
    let policy = LockoutPolicy::default();
    let left = |failures: u32| {
        let state = LockoutState { failures, last_failure_unix_ms: NOW };
        remaining_cooldown(&state, &policy, NOW + 500)
    };
    assert_eq!(left(5), Some(1_500));
    assert_eq!(left(6), Some(3_500));
    assert_eq!(left(7), Some(7_500));
    assert_eq!(left(12), Some(255_500));
    assert_eq!(left(13), Some(299_500));
    assert_eq!(left(u32::MAX), Some(299_500));
}

#[test]
fn doubling_stops_after_twenty_and_does_not_overflow() {
    let policy = LockoutPolicy {
        threshold: 0,
        base_delay_ms: u64::MAX,
        max_delay_ms: u64::MAX,
        max_tarpit_ms: 10,
    };
    let state = LockoutState { failures: u32::MAX, last_failure_unix_ms: 7 };
    assert_eq!(remaining_cooldown(&state, &policy, 7), Some(u64::MAX));
    let small = LockoutPolicy { base_delay_ms: 1, ..policy };
    assert_eq!(remaining_cooldown(&state, &small, 7), Some(1 << 20));
}

#[test]
fn a_failure_in_the_future_counts_as_now() {
    let policy = LockoutPolicy::default();
    let state = LockoutState { failures: 5, last_failure_unix_ms: NOW + 10_000 };
    assert_eq!(remaining_cooldown(&state, &policy, NOW), Some(2_000));
}

#[test]
fn five_failures_lock_and_a_success_unlocks() {
    let policy = LockoutPolicy::default();
    let mut file = record_failure(None, NOW);
    for i in 1..5 {
        assert_eq!(check(Some(&file), &policy, NOW + i), None);
        file = record_failure(Some(&file), NOW + i);
    }
    assert_eq!(
        check(Some(&file), &policy, NOW + 104),
        Some(Lockout { failures: 5, remaining_ms: 1_900, tarpit_ms: 1_900 })
    );
    for i in 5..9 {
        file = record_failure(Some(&file), NOW + i);
    }
    assert_eq!(
        check(Some(&file), &policy, NOW + 8),
        Some(Lockout { failures: 9, remaining_ms: 32_000, tarpit_ms: 3_000 })
    );
    file = record_success();
    assert_eq!(check(Some(&file), &policy, NOW + 9), None);
}

#[test]
fn lockout_file_layout() {
    let state = LockoutState { failures: 0x0102_0304, last_failure_unix_ms: 0x1112_1314_1516_1718 };
    let file = state.save();
    assert_eq!(
        file,
        vec![1, 0, 0, 0, 4, 3, 2, 1, 0x18, 0x17, 0x16, 0x15, 0x14, 0x13, 0x12, 0x11]
    );
    assert_eq!(LockoutState::load(Some(&file)), state);
    assert_eq!(record_success(), LockoutState::default().save());
}

#[test]
fn damaged_lockout_files_reset_the_count() {
    let clean = LockoutState::default();
    assert_eq!(LockoutState::load(None), clean);
    assert_eq!(LockoutState::load(Some(&vec![])), clean);
    let good = LockoutState { failures: 9, last_failure_unix_ms: 5 }.save();
    for n in 0..16 {
        assert_eq!(LockoutState::load(Some(&good[..n].to_vec())), clean);
    }
    let mut other = good.clone();
    other[0] = 2;
    assert_eq!(LockoutState::load(Some(&other)), clean);
    let mut longer = good.clone();
    longer.push(0);
    assert_eq!(LockoutState::load(Some(&longer)).failures, 9);
}

#[test]
fn failure_count_saturates() {
    let full = LockoutState { failures: u32::MAX, last_failure_unix_ms: 1 }.save();
    let after = LockoutState::load(Some(&record_failure(Some(&full), 2)));
    assert_eq!(after, LockoutState { failures: u32::MAX, last_failure_unix_ms: 2 });
}

#[test]
fn lockout_file_path() {
    assert_eq!(LockoutState::path("alice", "/var/lib/face-auth"), "/var/lib/face-auth/alice/lockout.bin");
    assert_eq!(LockoutState::path("alice", "/var/lib/"), "/var/lib/alice/lockout.bin");
    assert_eq!(LockoutState::path("/root", "/var/lib"), "/root/lockout.bin");
    assert_eq!(LockoutState::path("bob", ""), "bob/lockout.bin");
}

#[test]
fn attempts_without_a_match_lead_to_a_refusal() {
    let auth = FaceAuth::new(FaceAuthConfig::default()).unwrap();
    let mut file: Option<Vec<u8>> = None;
    for _ in 0..5 {
        assert!(auth.allow_attempt(file.as_ref(), NOW).is_ok());
        file = Some(after_attempt(file.as_ref(), false, NOW));
    }
    assert_eq!(file, Some(LockoutState { failures: 5, last_failure_unix_ms: NOW }.save()));
    assert_eq!(
        auth.allow_attempt(file.as_ref(), NOW + 500),
        Err(Lockout { failures: 5, remaining_ms: 1_500, tarpit_ms: 1_500 })
    );
    assert!(auth.allow_attempt(file.as_ref(), NOW + 2_000).is_ok());
    file = Some(after_attempt(file.as_ref(), true, NOW + 2_000));
    assert_eq!(file, Some(record_success()));
    assert!(auth.allow_attempt(file.as_ref(), NOW + 2_000).is_ok());
}

#[test]
fn the_settings_decide_when_attempts_are_refused() {
    let mut config = FaceAuthConfig::default();
    config.lockout_threshold = Some(1);
    config.lockout_base_delay_ms = Some(60_000);
    let auth = FaceAuth::new(config).unwrap();
    let file = after_attempt(None, false, NOW);
    assert_eq!(
        auth.allow_attempt(Some(&file), NOW),
        Err(Lockout { failures: 1, remaining_ms: 60_000, tarpit_ms: 3_000 })
    );
}
