use treesize::progress::{
    ProgressReporter, DIRS_PER_ATTEMPT, FILES_PER_ATTEMPT, MIN_EMIT_INTERVAL_NANOS,
};

#[test]
fn constants() {
    assert_eq!(FILES_PER_ATTEMPT, 512);
    assert_eq!(DIRS_PER_ATTEMPT, 64);
    assert_eq!(MIN_EMIT_INTERVAL_NANOS, 120 * 1_000_000);
}

#[test]
fn new_reporter_counts_nothing() {
    let reporter = ProgressReporter::new();
    assert_eq!(reporter.scanned_files(), 0);
    assert_eq!(reporter.scanned_dirs(), 0);
    assert_eq!(reporter.total_bytes(), 0);
}

#[test]
fn every_512th_file_is_due() {
    let mut reporter = ProgressReporter::new();
    let mut i: u64 = 1;
    while i <= 1100 {
        let due = reporter.record_file(3);
        assert_eq!(due, i == 512 || i == 1024);
        i += 1;
    }
    assert_eq!(reporter.scanned_files(), 1100);
    assert_eq!(reporter.total_bytes(), 3300);
    assert_eq!(reporter.scanned_dirs(), 0);
}

#[test]
fn every_64th_directory_is_due() {
    let mut reporter = ProgressReporter::new();
    let mut i: u64 = 1;
    while i <= 130 {
        let due = reporter.record_dir();
        assert_eq!(due, i == 64 || i == 128);
        i += 1;
    }
    assert_eq!(reporter.scanned_dirs(), 130);
    assert_eq!(reporter.scanned_files(), 0);
    assert_eq!(reporter.total_bytes(), 0);
}

#[test]
fn total_bytes_wrap_like_a_u64_counter() {
    let mut reporter = ProgressReporter::new();
    reporter.record_file(u64::MAX);
    reporter.record_file(5);
    assert_eq!(reporter.total_bytes(), 4);
    assert_eq!(reporter.scanned_files(), 2);
}

#[test]
fn snapshot_shows_the_counters() {
    let mut reporter = ProgressReporter::new();
    reporter.record_file(10);
    reporter.record_file(20);
    reporter.record_dir();
    let shot = reporter.snapshot(Some("/r/x"));
    assert_eq!(shot.scanned_files, 2);
    assert_eq!(shot.scanned_dirs, 1);
    assert_eq!(shot.total_bytes, 30);
    assert_eq!(shot.current_path, Some("/r/x".to_string()));
    let bare = reporter.snapshot(None);
    assert_eq!(bare.current_path, None);
}

#[test]
fn throttle_blocks_before_120_ms() {
    let mut reporter = ProgressReporter::new();
    assert!(reporter.maybe_emit_at(0, None).is_none());
    assert!(reporter.maybe_emit_at(119_999_999, Some("/r")).is_none());
}

#[test]
fn throttle_opens_at_120_ms_and_restarts() {
    let mut reporter = ProgressReporter::new();
    reporter.record_file(7);
    let sent = reporter.maybe_emit_at(120_000_000, Some("/r/a"));
    let sent = sent.unwrap();
    assert_eq!(sent.scanned_files, 1);
    assert_eq!(sent.total_bytes, 7);
    assert_eq!(sent.current_path, Some("/r/a".to_string()));
    assert!(reporter.maybe_emit_at(239_999_999, None).is_none());
    assert!(reporter.maybe_emit_at(240_000_000, None).is_some());
}

#[test]
fn forced_emission_restarts_the_throttle() {
    let mut reporter = ProgressReporter::new();
    let shot = reporter.emit_at(1_000_000_000, Some("/r"));
    assert_eq!(shot.scanned_files, 0);
    assert_eq!(shot.current_path, Some("/r".to_string()));
    assert!(reporter.maybe_emit_at(1_100_000_000, None).is_none());
    assert!(reporter.maybe_emit_at(1_120_000_000, None).is_some());
}

#[test]
fn a_clock_that_runs_backwards_keeps_the_throttle_shut() {
    let mut reporter = ProgressReporter::new();
    reporter.emit_at(500_000_000, None);
    assert!(reporter.maybe_emit_at(100, None).is_none());
}

#[test]
fn emission_never_changes_the_counters() {
    let mut reporter = ProgressReporter::new();
    reporter.record_file(9);
    reporter.record_dir();
    let shot = reporter.emit_force(Some("/r"));
    assert_eq!(shot.scanned_files, 1);
    assert_eq!(shot.scanned_dirs, 1);
    assert_eq!(shot.total_bytes, 9);
    assert_eq!(shot.current_path, Some("/r".to_string()));
    let _ = reporter.maybe_emit(None);
    assert_eq!(reporter.scanned_files(), 1);
    assert_eq!(reporter.scanned_dirs(), 1);
    assert_eq!(reporter.total_bytes(), 9);
}

#[test]
fn file_scanned_attempts_only_on_multiples() {
    let mut reporter = ProgressReporter::new();
    let mut i: u64 = 1;
    while i < 512 {
        assert!(reporter.file_scanned(2, "/r/f").is_none());
        i += 1;
    }
    let sent = reporter.file_scanned(2, "/r/last");
    if let Some(shot) = sent {
        assert_eq!(shot.scanned_files, 512);
        assert_eq!(shot.total_bytes, 1024);
        assert_eq!(shot.current_path, Some("/r/last".to_string()));
    }
    assert_eq!(reporter.scanned_files(), 512);
    assert_eq!(reporter.total_bytes(), 1024);
}

#[test]
fn dir_scanned_attempts_only_on_multiples() {
    let mut reporter = ProgressReporter::new();
    let mut i: u64 = 1;
    while i < 64 {
        assert!(reporter.dir_scanned("/r/d").is_none());
        i += 1;
    }
    let sent = reporter.dir_scanned("/r/last");
    if let Some(shot) = sent {
        assert_eq!(shot.scanned_dirs, 64);
        assert_eq!(shot.current_path, Some("/r/last".to_string()));
    }
    assert_eq!(reporter.scanned_dirs(), 64);
}
