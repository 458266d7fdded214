use rsp_rs::WindowInstance;
use std::collections::HashSet;

#[test]
fn a_new_window_has_its_interval_and_is_not_triggered() {
    let window = WindowInstance::new(-8000, 2000);
    assert_eq!(window.open, -8000);
    assert_eq!(window.close, 2000);
    assert!(!window.has_triggered_and_emitted);
}

#[test]
fn the_flag_plays_no_part_in_equality() {
    let plain = WindowInstance::new(0, 5000);
    let mut triggered = WindowInstance::new(0, 5000);
    triggered.set_triggered_and_emitted(true);
    assert!(triggered.has_triggered_and_emitted);
    assert_eq!(triggered.open, 0);
    assert_eq!(triggered.close, 5000);
    assert!(plain == triggered);
    assert!(plain.is_same_window(&triggered));
    triggered.set_triggered_and_emitted(false);
    assert!(!triggered.has_triggered_and_emitted);
}

#[test]
fn windows_with_other_bounds_differ() {
    let window = WindowInstance::new(0, 5000);
    assert!(window != WindowInstance::new(1000, 5000));
    assert!(window != WindowInstance::new(0, 6000));
    assert!(!window.is_same_window(&WindowInstance::new(1000, 6000)));
}

#[test]
fn equal_windows_hash_alike() {
    let mut triggered = WindowInstance::new(0, 5000);
    triggered.set_triggered_and_emitted(true);
    let mut seen = HashSet::new();
    assert!(seen.insert(WindowInstance::new(0, 5000)));
    assert!(!seen.insert(triggered));
    assert!(seen.insert(WindowInstance::new(1000, 6000)));
    assert_eq!(seen.len(), 2);
}
