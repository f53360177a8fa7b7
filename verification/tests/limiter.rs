use detrudr::limiter::{
    is_rate_limited, prune_limiter, record_failure, reset_failures, LoginAttempt, ATTEMPT_WINDOW,
    LOCKOUT_DURATION, MAX_ATTEMPTS,
};
use detrudr::table::Table;

const SECOND: u64 = 1_000_000_000;
const NOW: u64 = 1_000 * SECOND;

#[test]
fn rate_limiter_blocks_after_max_attempts() {
    let mut limiter: Table<LoginAttempt> = Table::new();
    for _ in 0..MAX_ATTEMPTS {
        assert!(!is_rate_limited("1.2.3.4", &mut limiter, NOW));
        record_failure("1.2.3.4", &mut limiter, NOW);
    }
    assert!(is_rate_limited("1.2.3.4", &mut limiter, NOW));
}

#[test]
fn rate_limiter_uses_lockout_until_instead_of_window_start() {
    let mut limiter: Table<LoginAttempt> = Table::new();
    limiter.insert(
        "1.2.3.4".to_owned(),
        LoginAttempt {
            failure_count: MAX_ATTEMPTS,
            window_start: NOW - LOCKOUT_DURATION,
            lockout_until: Some(NOW + LOCKOUT_DURATION),
        },
    );

    assert!(is_rate_limited("1.2.3.4", &mut limiter, NOW));
}

#[test]
fn rate_limiter_clears_expired_lockout() {
    let mut limiter: Table<LoginAttempt> = Table::new();
    limiter.insert(
        "1.2.3.4".to_owned(),
        LoginAttempt {
            failure_count: MAX_ATTEMPTS,
            window_start: NOW,
            lockout_until: Some(NOW - SECOND),
        },
    );

    assert!(!is_rate_limited("1.2.3.4", &mut limiter, NOW));
    assert_eq!(limiter.get("1.2.3.4").and_then(|entry| entry.lockout_until), None);
}

#[test]
fn rate_limiter_prunes_stale_entries() {
    let now = NOW;
    let mut store: Table<LoginAttempt> = Table::new();
    store.insert(
        "stale".to_owned(),
        LoginAttempt {
            failure_count: 1,
            window_start: now - ATTEMPT_WINDOW - SECOND,
            lockout_until: None,
        },
    );
    store.insert(
        "in-window".to_owned(),
        LoginAttempt { failure_count: 1, window_start: now, lockout_until: None },
    );
    store.insert(
        "locked".to_owned(),
        LoginAttempt {
            failure_count: MAX_ATTEMPTS,
            window_start: now - ATTEMPT_WINDOW - SECOND,
            lockout_until: Some(now + LOCKOUT_DURATION),
        },
    );

    prune_limiter(&mut store, now);

    assert!(!store.contains_key("stale"));
    assert!(store.contains_key("in-window"));
    assert!(store.contains_key("locked"));
}

#[test]
fn four_failures_do_not_lock_out() {
    let mut limiter: Table<LoginAttempt> = Table::new();
    for second in 0..4 {
        record_failure("1.2.3.4", &mut limiter, NOW + second * SECOND);
    }
    assert!(!is_rate_limited("1.2.3.4", &mut limiter, NOW + 4 * SECOND));
    assert_eq!(limiter.get("1.2.3.4").unwrap().failure_count, 4);
    assert_eq!(limiter.get("1.2.3.4").unwrap().window_start, NOW);
}

#[test]
fn a_lockout_ends_and_returns_with_the_next_failure() {
    let mut limiter: Table<LoginAttempt> = Table::new();
    for _ in 0..5 {
        record_failure("1.2.3.4", &mut limiter, NOW);
    }
    assert!(is_rate_limited("1.2.3.4", &mut limiter, NOW + LOCKOUT_DURATION - 1));
    assert!(!is_rate_limited("1.2.3.4", &mut limiter, NOW + LOCKOUT_DURATION));
    assert_eq!(limiter.get("1.2.3.4").unwrap().failure_count, 5);
    record_failure("1.2.3.4", &mut limiter, NOW + LOCKOUT_DURATION);
    assert!(is_rate_limited("1.2.3.4", &mut limiter, NOW + LOCKOUT_DURATION));
}

#[test]
fn failures_are_forgotten_after_the_window() {
    let mut limiter: Table<LoginAttempt> = Table::new();
    for _ in 0..4 {
        record_failure("1.2.3.4", &mut limiter, NOW);
    }
    record_failure("1.2.3.4", &mut limiter, NOW + ATTEMPT_WINDOW + 1);
    assert!(!is_rate_limited("1.2.3.4", &mut limiter, NOW + ATTEMPT_WINDOW + 1));
    assert_eq!(limiter.get("1.2.3.4").unwrap().failure_count, 1);
}

#[test]
fn success_clears_the_failures() {
    let mut limiter: Table<LoginAttempt> = Table::new();
    for _ in 0..4 {
        record_failure("1.2.3.4", &mut limiter, NOW);
    }
    reset_failures("1.2.3.4", &mut limiter);
    record_failure("1.2.3.4", &mut limiter, NOW);
    assert!(!is_rate_limited("1.2.3.4", &mut limiter, NOW));
}

#[test]
fn addresses_are_limited_on_their_own() {
    let mut limiter: Table<LoginAttempt> = Table::new();
    for _ in 0..5 {
        record_failure("1.2.3.4", &mut limiter, NOW);
    }
    assert!(!is_rate_limited("1.2.3.5", &mut limiter, NOW));
    assert!(is_rate_limited("1.2.3.4", &mut limiter, NOW));
}
