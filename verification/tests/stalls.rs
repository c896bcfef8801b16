use thermite::watchdog::{LastWriteTimestamps, Timestamp, NANOS_PER_SEC};

fn at(seconds: u64, nanos: u64) -> Timestamp {
    Timestamp { nanos: seconds * NANOS_PER_SEC + nanos }
}

fn name(target: &str) -> String {
    target.to_string()
}

#[test]
fn one_warning_per_poll_until_refreshed() {
    let mut records = LastWriteTimestamps::new();
    records.insert(name("/dev/sda"), at(0, 0));
    records.insert(name("/dev/sdb"), at(13, 0));
    let threshold = 2;
    // /dev/sda is older than the threshold at every poll
    for poll in [11u64, 12, 14] {
        let warnings = records.stalled(at(poll, 0), threshold);
        assert_eq!(warnings.len(), 1);
        assert_eq!(warnings[0].target, "/dev/sda");
        assert_eq!(warnings[0].seconds, poll);
    }
    // a write to it is recorded
    records.record(&name("/dev/sda"), at(14, 500));
    assert_eq!(records.stalled(at(15, 0), threshold).len(), 0);
    let warnings = records.stalled(at(16, 0), threshold);
    assert_eq!(warnings.len(), 1);
    assert_eq!(warnings[0].target, "/dev/sdb");
    assert_eq!(warnings[0].seconds, 3);
    // more than the threshold later it has stalled again
    let warnings = records.stalled(at(17, 0), threshold);
    assert_eq!(warnings.len(), 2);
    assert_eq!(warnings[0].target, "/dev/sda");
    assert_eq!(warnings[0].seconds, 2);
    assert_eq!(warnings[1].target, "/dev/sdb");
    assert_eq!(warnings[1].seconds, 4);
}

#[test]
fn stalled_means_more_than_the_threshold() {
    let mut records = LastWriteTimestamps::new();
    records.insert(name("a"), at(100, 0));
    assert_eq!(records.stalled(at(102, 0), 2).len(), 0);
    let warnings = records.stalled(at(102, 1), 2);
    assert_eq!(warnings.len(), 1);
    assert_eq!(warnings[0].seconds, 2);
    assert_eq!(records.stalled(at(100, 0), 0).len(), 0);
    assert_eq!(records.stalled(at(100, 1), 0).len(), 1);
}

#[test]
fn a_clock_that_ran_backwards_is_no_stall() {
    let mut records = LastWriteTimestamps::new();
    records.insert(name("a"), at(100, 0));
    assert_eq!(records.stalled(at(50, 0), 0).len(), 0);
}

#[test]
fn the_largest_threshold_never_trips() {
    let mut records = LastWriteTimestamps::new();
    records.insert(name("a"), Timestamp { nanos: 0 });
    assert_eq!(records.stalled(Timestamp { nanos: u64::MAX }, u64::MAX).len(), 0);
    let warnings = records.stalled(Timestamp { nanos: u64::MAX }, 18446744073);
    assert_eq!(warnings.len(), 1);
    assert_eq!(warnings[0].seconds, 18446744073);
    assert_eq!(records.stalled(Timestamp { nanos: u64::MAX }, 18446744074).len(), 0);
}

#[test]
fn polling_changes_nothing() {
    let mut records = LastWriteTimestamps::new();
    records.insert(name("a"), at(1, 0));
    records.insert(name("b"), at(2, 0));
    records.stalled(at(100, 0), 1);
    assert_eq!(records.len(), 2);
    assert_eq!(records.last_write(&name("a")), Some(at(1, 0)));
    assert_eq!(records.last_write(&name("b")), Some(at(2, 0)));
}

#[test]
fn warnings_come_in_the_order_of_the_targets() {
    let mut records = LastWriteTimestamps::new();
    for target in ["c", "a", "b"] {
        records.insert(name(target), at(0, 0));
    }
    let warnings = records.stalled(at(10, 0), 1);
    let targets: Vec<&str> = warnings.iter().map(|w| w.target.as_str()).collect();
    assert_eq!(targets, vec!["c", "a", "b"]);
}

#[test]
fn a_target_has_one_record() {
    let mut records = LastWriteTimestamps::new();
    assert_eq!(records.len(), 0);
    records.insert(name("a"), at(1, 0));
    records.insert(name("b"), at(2, 0));
    records.insert(name("a"), at(3, 0));
    assert_eq!(records.len(), 2);
    assert_eq!(records.last_write(&name("a")), Some(at(3, 0)));
    let warnings = records.stalled(at(10, 0), 1);
    assert_eq!(warnings.len(), 2);
    assert_eq!(warnings[0].target, "a");
    assert_eq!(warnings[0].seconds, 7);
}

#[test]
fn a_write_to_an_unknown_target_is_not_recorded() {
    let mut records = LastWriteTimestamps::new();
    records.insert(name("a"), at(1, 0));
    records.record(&name("b"), at(5, 0));
    assert_eq!(records.len(), 1);
    assert_eq!(records.last_write(&name("b")), None);
    assert_eq!(records.last_write(&name("a")), Some(at(1, 0)));
}

#[test]
fn the_targets_of_a_run_are_entered_in_order() {
    let targets = vec![name("b"), name("a"), name("b"), name("c")];
    let records = LastWriteTimestamps::for_targets(&targets, at(3, 0));
    assert_eq!(records.len(), 3);
    for target in ["a", "b", "c"] {
        assert_eq!(records.last_write(&name(target)), Some(at(3, 0)));
    }
    let warnings = records.stalled(at(10, 0), 1);
    let order: Vec<&str> = warnings.iter().map(|w| w.target.as_str()).collect();
    assert_eq!(order, vec!["b", "a", "c"]);
}

#[test]
fn no_targets_no_warnings() {
    let records = LastWriteTimestamps::new();
    assert_eq!(records.stalled(at(1000, 0), 0).len(), 0);
}
