use almanac::limits::{client_id, Limiter, Limits, HOUR_MS, MINUTE_MS};

#[test]
fn allows_up_to_max_then_reports_retry() {
    let mut l = Limiter::new();
    for _ in 0..3 {
        assert!(l.check_at(0, "k", 3, MINUTE_MS).is_ok());
    }
    assert_eq!(l.check_at(10_000, "k", 3, MINUTE_MS), Err(50));
    assert_eq!(l.check_at(10_001, "k", 3, MINUTE_MS), Err(50));
    assert_eq!(l.check_at(59_999, "k", 3, MINUTE_MS), Err(1));
    assert!(l.check_at(10_000, "other", 3, MINUTE_MS).is_ok());
}

#[test]
fn window_resets() {
    let mut l = Limiter::new();
    assert!(l.check_at(0, "k", 1, MINUTE_MS).is_ok());
    assert!(l.check_at(59_999, "k", 1, MINUTE_MS).is_err());
    assert!(l.check_at(60_000, "k", 1, MINUTE_MS).is_ok());
}

#[test]
fn sweeps_on_a_timer_not_on_every_call() {
    let mut l = Limiter::new();
    // Many calls inside one interval cost one sweep, not one each.
    for i in 0..50 {
        assert!(l.check_at(i * 1000, &format!("k{i}"), 10, MINUTE_MS).is_ok());
    }
    assert_eq!(l.sweeps(), 0, "swept per call instead of per interval");
    assert_eq!(l.key_count(), 50, "nothing was dead yet");
    // Past the interval, one sweep drops everything older than an hour.
    assert!(l.check_at(HOUR_MS + MINUTE_MS, "fresh", 10, MINUTE_MS).is_ok());
    assert_eq!(l.sweeps(), 1);
    assert_eq!(l.key_count(), 1, "stale keys survived the sweep");
    // Still one sweep for the whole next interval, however busy it gets.
    for i in 0..50 {
        let t = HOUR_MS + MINUTE_MS + i * 100;
        assert!(l.check_at(t, &format!("n{i}"), 10, MINUTE_MS).is_ok());
    }
    assert_eq!(l.sweeps(), 1);
}

#[test]
fn a_backwards_clock_still_sweeps() {
    let mut l = Limiter::new();
    assert!(l.check_at(HOUR_MS, "a", 10, MINUTE_MS).is_ok());
    let before = l.sweeps();
    assert!(l.check_at(0, "b", 10, MINUTE_MS).is_ok());
    assert_eq!(l.sweeps(), before + 1);
}

#[test]
fn limits_env_overrides_only_what_it_sets() {
    let env: Vec<(String, String)> = vec![
        ("MAX_CREATES_PER_HOUR".into(), "5000".into()),
        ("TRUSTED_PROXY_HOPS".into(), " 2 ".into()),
        ("MAX_EVENTS_PER_CALENDAR".into(), "not-a-number".into()),
    ];
    let l = Limits::default().from_env(&env);
    assert_eq!(l.creates_global_hour, 5_000);
    assert_eq!(l.proxy_hops, 2);
    assert_eq!(l.max_events, Limits::default().max_events);
    assert_eq!(l.creates_per_client_hour, Limits::default().creates_per_client_hour);
}

#[test]
fn client_is_the_nth_entry_from_the_right() {
    assert_eq!(client_id("1.1.1.1, 2.2.2.2", "9.9.9.9", 1), "2.2.2.2");
    assert_eq!(client_id("1.1.1.1, 2.2.2.2", "9.9.9.9", 2), "1.1.1.1");
    // A spoofed leftmost entry does not pick the bucket.
    assert_eq!(client_id("6.6.6.6, 1.1.1.1", "9.9.9.9", 1), "1.1.1.1");
    assert_eq!(client_id("1.1.1.1", "9.9.9.9", 2), "9.9.9.9");
    assert_eq!(client_id("", "9.9.9.9", 1), "9.9.9.9");
    assert_eq!(client_id("1.1.1.1", "9.9.9.9", 0), "9.9.9.9");
}

#[test]
fn a_zero_budget_refuses_every_hit() {
    let mut l = Limiter::new();
    assert!(l.check_at(0, "k", 0, MINUTE_MS).is_err());
}

#[test]
fn a_full_window_refuses_until_it_ends_even_across_a_sweep() {
    let mut l = Limiter::new();
    assert!(l.check_at(120_000, "w", 2, 2 * MINUTE_MS).is_ok());
    assert!(l.check_at(150_000, "w", 2, 2 * MINUTE_MS).is_ok());
    // 80 s after the last sweep: this hit sweeps, and the full window stays.
    assert_eq!(l.check_at(200_000, "w", 2, 2 * MINUTE_MS), Err(40));
    assert_eq!(l.check_at(239_999, "w", 2, 2 * MINUTE_MS), Err(1));
    assert!(l.check_at(240_000, "w", 2, 2 * MINUTE_MS).is_ok());
}

#[test]
fn any_clock_reading_is_counted() {
    let mut l = Limiter::new();
    let far = i64::MAX - 1_000;
    assert!(l.check_at(far, "k", 1, MINUTE_MS).is_ok());
    assert_eq!(l.check_at(far, "k", 1, MINUTE_MS), Err(60));
    assert!(l.check_at(i64::MIN, "k", 1, MINUTE_MS).is_err());
    assert!(l.check_at(i64::MIN, "j", 1, MINUTE_MS).is_ok());
}
