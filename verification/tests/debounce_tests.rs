use seedo::debounce::{DebounceTimer, DebounceTimerSet, default_debounce_ms};

#[test]
fn default_window_is_fifty_milliseconds() {
    assert_eq!(default_debounce_ms(), 50);
}

#[test]
fn new_timer_is_stopped() {
    let t = DebounceTimer::new(50);
    assert_eq!(t.calculate_timeout(0), None);
    assert!(!t.expired(0));
}

#[test]
fn started_timer_counts_down() {
    let mut t = DebounceTimer::new(50);
    t.start_if_stopped(100);
    assert_eq!(t.calculate_timeout(100), Some(50));
    assert_eq!(t.calculate_timeout(120), Some(30));
    assert_eq!(t.calculate_timeout(150), Some(0));
    assert_eq!(t.calculate_timeout(500), Some(0));
}

#[test]
fn second_start_does_not_move_the_anchor() {
    let mut t = DebounceTimer::new(50);
    t.start_if_stopped(0);
    t.start_if_stopped(20);
    assert_eq!(t.calculate_timeout(20), Some(30));
    assert!(!t.expired(49));
    assert!(t.expired(50));
}

#[test]
fn expiry_is_exactly_at_the_deadline() {
    let mut t = DebounceTimer::new(50);
    t.start_if_stopped(10);
    assert!(!t.expired(10));
    assert!(!t.expired(59));
    assert!(t.expired(60));
    assert!(t.expired(61));
}

#[test]
fn stop_keeps_the_window() {
    let mut t = DebounceTimer::new(50);
    t.start_if_stopped(0);
    t.stop();
    assert_eq!(t.calculate_timeout(100), None);
    assert!(!t.expired(100));
    t.start_if_stopped(200);
    assert_eq!(t.calculate_timeout(200), Some(50));
}

#[test]
fn set_timeout_is_the_minimum_over_running_timers() {
    let mut a = DebounceTimer::new(50);
    let b = DebounceTimer::new(10);
    let mut c = DebounceTimer::new(200);
    a.start_if_stopped(0);
    c.start_if_stopped(30);
    let set = DebounceTimerSet { timers: vec![a, b, c] };
    assert_eq!(set.calculate_timeout(40), Some(10));
}

#[test]
fn set_timeout_is_none_while_all_timers_are_stopped() {
    let set = DebounceTimerSet { timers: vec![DebounceTimer::new(50), DebounceTimer::new(10)] };
    assert_eq!(set.calculate_timeout(1000), None);
    let empty = DebounceTimerSet { timers: vec![] };
    assert_eq!(empty.calculate_timeout(0), None);
}
