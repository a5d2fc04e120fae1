//! Throttled progress counters.
//!
//! One reporter lives as long as one scan. It counts what the walk visits and
//! decides when a snapshot of the counts is due; sending the snapshot is the
//! host's part. Every update takes the reporter by `&mut`, so whoever shares
//! it between threads has to put it behind a lock, and each update,
//! including the throttle's check and set, is then one critical section.

use std::time::Duration;
use std::time::Instant;
use vstd::prelude::*;

use crate::node::text_of;

verus! {

/// Every this many files, a snapshot is attempted.
pub const FILES_PER_ATTEMPT: u64 = 512;

/// Every this many directories, a snapshot is attempted.
pub const DIRS_PER_ATTEMPT: u64 = 64;

/// An attempted snapshot is sent only if the last one is at least this old:
/// 120 ms.
pub const MIN_EMIT_INTERVAL_NANOS: u128 = 120_000_000;

/// A snapshot of the counters, as it is sent to the host's event sink.
#[derive(Debug, Clone, PartialEq, Eq)]
pub struct ScanProgress {
    pub scanned_files: u64,
    pub scanned_dirs: u64,
    pub total_bytes: u64,
    pub current_path: Option<String>,
}

/// The mathematical value of a [`ScanProgress`].
pub ghost struct ProgressView {
    pub scanned_files: nat,
    pub scanned_dirs: nat,
    pub total_bytes: nat,
    pub current_path: Option<Seq<char>>,
}

impl View for ScanProgress {
    type V = ProgressView;

    open spec fn view(&self) -> ProgressView {
        ProgressView {
            scanned_files: self.scanned_files as nat,
            scanned_dirs: self.scanned_dirs as nat,
            total_bytes: self.total_bytes as nat,
            current_path: text_of(self.current_path),
        }
    }
}

#[verifier::external_type_specification]
#[verifier::external_body]
pub struct ExInstant(Instant);

/// `Instant::now`: the current reading of the monotonic clock. Nothing is
/// claimed of it.
pub assume_specification[ Instant::now ]() -> (now: Instant)
;

/// `Instant::elapsed`: the time since `origin`. Nothing is claimed of it.
pub assume_specification[ Instant::elapsed ](origin: &Instant) -> (elapsed: Duration)
;

/// `Duration::as_nanos`: a duration in whole nanoseconds. Nothing is claimed
/// of it.
pub assume_specification[ Duration::as_nanos ](duration: &Duration) -> (nanos: u128)
;

/// The counters of one scan and the time of the last snapshot.
#[derive(Debug)]
pub struct ProgressReporter {
    scanned_files: u64,
    scanned_dirs: u64,
    total_bytes: u64,
    /// When the reporter was made; times are counted from here.
    origin: Instant,
    /// When the last snapshot was taken, in nanoseconds since `origin`.
    last_emit_nanos: u128,
}

/// The mathematical value of a [`ProgressReporter`].
pub ghost struct ReporterView {
    pub scanned_files: nat,
    pub scanned_dirs: nat,
    pub total_bytes: nat,
    /// Nanoseconds from the reporter's making to its last snapshot.
    pub last_emit: nat,
}

/// A count as a `u64` counter holds it: past the largest `u64` it starts
/// again at zero.
pub open spec fn wrapped(count: nat) -> nat {
    count % 0x1_0000_0000_0000_0000
}

/// The characters of an optional borrowed path.
pub open spec fn path_of(path: Option<&str>) -> Option<Seq<char>> {
    match path {
        Some(p) => Some(p@),
        None => None,
    }
}

/// Whether a snapshot attempted at `now` is sent, the last one having been
/// taken at `last`: at least 120 ms lie between them.
pub open spec fn throttle_open(last: nat, now: nat) -> bool {
    now - last >= MIN_EMIT_INTERVAL_NANOS
}

impl ReporterView {
    /// The counters after a file of `bytes` bytes.
    pub open spec fn with_file(self, bytes: nat) -> ReporterView {
        ReporterView {
            scanned_files: wrapped(self.scanned_files + 1),
            total_bytes: wrapped(self.total_bytes + bytes),
            ..self
        }
    }

    /// The counters after a directory.
    pub open spec fn with_dir(self) -> ReporterView {
        ReporterView { scanned_dirs: wrapped(self.scanned_dirs + 1), ..self }
    }

    /// The reporter once a snapshot was taken at `now`.
    pub open spec fn emitted_at(self, now: nat) -> ReporterView {
        ReporterView { last_emit: now, ..self }
    }

    /// The snapshot of the counters, naming `path`.
    pub open spec fn snapshot(self, path: Option<Seq<char>>) -> ProgressView {
        ProgressView {
            scanned_files: self.scanned_files,
            scanned_dirs: self.scanned_dirs,
            total_bytes: self.total_bytes,
            current_path: path,
        }
    }

    /// Whether two reporters count the same.
    pub open spec fn same_counts(self, other: ReporterView) -> bool {
        &&& self.scanned_files == other.scanned_files
        &&& self.scanned_dirs == other.scanned_dirs
        &&& self.total_bytes == other.total_bytes
    }
}

/// Counting never lowers a counter that has room left: as long as no
/// counter passes the largest `u64`, a visit leaves the file and directory
/// counts one higher or unchanged, and the bytes no lower. Taking a snapshot
/// changes no counter at all.
pub proof fn lemma_counters_only_grow(pre: ReporterView, bytes: nat, now: nat)
    requires
        pre.scanned_files < u64::MAX,
        pre.scanned_dirs < u64::MAX,
        pre.total_bytes + bytes <= u64::MAX,
    ensures
        pre.with_file(bytes).scanned_files == pre.scanned_files + 1,
        pre.with_file(bytes).total_bytes == pre.total_bytes + bytes,
        pre.with_file(bytes).scanned_dirs == pre.scanned_dirs,
        pre.with_dir().scanned_dirs == pre.scanned_dirs + 1,
        pre.with_dir().scanned_files == pre.scanned_files,
        pre.with_dir().total_bytes == pre.total_bytes,
        pre.emitted_at(now).same_counts(pre),
{
}

impl View for ProgressReporter {
    type V = ReporterView;

    closed spec fn view(&self) -> ReporterView {
        ReporterView {
            scanned_files: self.scanned_files as nat,
            scanned_dirs: self.scanned_dirs as nat,
            total_bytes: self.total_bytes as nat,
            last_emit: self.last_emit_nanos as nat,
        }
    }
}

/// An owned copy of an optional borrowed path.
fn owned_path(path: Option<&str>) -> (owned: Option<String>)
    ensures
        text_of(owned) == path_of(path),
{
    match path {
        Some(p) => Some(p.to_owned()),
        None => None,
    }
}

impl ProgressReporter {
    /// A reporter with all counters at zero, whose throttle counts from now.
    pub fn new() -> (reporter: ProgressReporter)
        ensures
            reporter@ == (ReporterView {
                scanned_files: 0,
                scanned_dirs: 0,
                total_bytes: 0,
                last_emit: 0,
            }),
    {
        ProgressReporter {
            scanned_files: 0,
            scanned_dirs: 0,
            total_bytes: 0,
            origin: Instant::now(),
            last_emit_nanos: 0,
        }
    }

    /// Nanoseconds since the reporter was made, by the monotonic clock.
    fn now_nanos(&self) -> (now: u128) {
        let elapsed = self.origin.elapsed();
        elapsed.as_nanos()
    }

    /// Counts a file of `bytes` bytes. Says whether a snapshot is to be
    /// attempted: on every 512th file.
    pub fn record_file(&mut self, bytes: u64) -> (due: bool)
        ensures
            final(self)@ == old(self)@.with_file(bytes as nat),
            due == (final(self)@.scanned_files % (FILES_PER_ATTEMPT as nat) == 0),
    {
        self.scanned_files = self.scanned_files.wrapping_add(1);
        self.total_bytes = self.total_bytes.wrapping_add(bytes);
        self.scanned_files % FILES_PER_ATTEMPT == 0
    }

    /// Counts a directory. Says whether a snapshot is to be attempted: on
    /// every 64th directory.
    pub fn record_dir(&mut self) -> (due: bool)
        ensures
            final(self)@ == old(self)@.with_dir(),
            due == (final(self)@.scanned_dirs % (DIRS_PER_ATTEMPT as nat) == 0),
    {
        self.scanned_dirs = self.scanned_dirs.wrapping_add(1);
        self.scanned_dirs % DIRS_PER_ATTEMPT == 0
    }

    /// The counters as they stand, naming `path`.
    pub fn snapshot(&self, path: Option<&str>) -> (progress: ScanProgress)
        ensures
            progress@ == self@.snapshot(path_of(path)),
    {
        ScanProgress {
            scanned_files: self.scanned_files,
            scanned_dirs: self.scanned_dirs,
            total_bytes: self.total_bytes,
            current_path: owned_path(path),
        }
    }

    /// Takes a snapshot at the time `now_nanos`, whatever the throttle says,
    /// and restarts the throttle from there.
    pub fn emit_at(&mut self, now_nanos: u128, path: Option<&str>) -> (progress: ScanProgress)
        ensures
            progress@ == old(self)@.snapshot(path_of(path)),
            final(self)@ == old(self)@.emitted_at(now_nanos as nat),
    {
        let progress = self.snapshot(path);
        self.last_emit_nanos = now_nanos;
        progress
    }

    /// Attempts a snapshot at the time `now_nanos`: one is taken if and only
    /// if the last one is at least 120 ms old; otherwise nothing changes.
    pub fn maybe_emit_at(&mut self, now_nanos: u128, path: Option<&str>) -> (progress: Option<
        ScanProgress,
    >)
        ensures
            throttle_open(old(self)@.last_emit, now_nanos as nat) ==> {
                &&& progress matches Some(sent)
                &&& sent@ == old(self)@.snapshot(path_of(path))
                &&& final(self)@ == old(self)@.emitted_at(now_nanos as nat)
            },
            !throttle_open(old(self)@.last_emit, now_nanos as nat) ==> {
                &&& progress is None
                &&& final(self)@ == old(self)@
            },
    {
        if now_nanos.saturating_sub(self.last_emit_nanos) >= MIN_EMIT_INTERVAL_NANOS {
            Some(self.emit_at(now_nanos, path))
        } else {
            None
        }
    }

    /// Takes a snapshot now, whatever the throttle says, and restarts the
    /// throttle. The counters do not change.
    pub fn emit_force(&mut self, path: Option<&str>) -> (progress: ScanProgress)
        ensures
            progress@ == old(self)@.snapshot(path_of(path)),
            final(self)@.same_counts(old(self)@),
    {
        let now = self.now_nanos();
        self.emit_at(now, path)
    }

    /// Attempts a snapshot now, by the clock. One is taken only if the last is
    /// at least 120 ms old: it shows the counters as they stand, and the
    /// throttle restarts at the time it was taken. Otherwise nothing changes.
    pub fn maybe_emit(&mut self, path: Option<&str>) -> (progress: Option<ScanProgress>)
        ensures
            final(self)@.same_counts(old(self)@),
            progress matches Some(sent) ==> {
                &&& sent@ == old(self)@.snapshot(path_of(path))
                &&& throttle_open(old(self)@.last_emit, final(self)@.last_emit)
            },
            progress is None ==> final(self)@ == old(self)@,
    {
        let now = self.now_nanos();
        self.maybe_emit_at(now, path)
    }

    /// A file of `bytes` bytes was visited at `path`. On every 512th file a
    /// snapshot is attempted; what comes back is the snapshot to send, if
    /// one is due and the throttle, open after 120 ms, lets it pass.
    pub fn file_scanned(&mut self, bytes: u64, path: &str) -> (progress: Option<ScanProgress>)
        ensures
            final(self)@.same_counts(old(self)@.with_file(bytes as nat)),
            progress matches Some(sent) ==> {
                &&& sent@ == final(self)@.snapshot(Some(path@))
                &&& final(self)@.scanned_files % (FILES_PER_ATTEMPT as nat) == 0
                &&& throttle_open(old(self)@.last_emit, final(self)@.last_emit)
            },
            progress is None ==> final(self)@ == old(self)@.with_file(bytes as nat),
    {
        if self.record_file(bytes) {
            self.maybe_emit(Some(path))
        } else {
            None
        }
    }

    /// A directory was visited at `path`. On every 64th directory a snapshot
    /// is attempted; what comes back is the snapshot to send, if one is due
    /// and the throttle, open after 120 ms, lets it pass.
    pub fn dir_scanned(&mut self, path: &str) -> (progress: Option<ScanProgress>)
        ensures
            final(self)@.same_counts(old(self)@.with_dir()),
            progress matches Some(sent) ==> {
                &&& sent@ == final(self)@.snapshot(Some(path@))
                &&& final(self)@.scanned_dirs % (DIRS_PER_ATTEMPT as nat) == 0
                &&& throttle_open(old(self)@.last_emit, final(self)@.last_emit)
            },
            progress is None ==> final(self)@ == old(self)@.with_dir(),
    {
        if self.record_dir() {
            self.maybe_emit(Some(path))
        } else {
            None
        }
    }

    /// How many files were counted.
    pub fn scanned_files(&self) -> (count: u64)
        ensures
            count == self@.scanned_files,
    {
        self.scanned_files
    }

    /// How many directories were counted.
    pub fn scanned_dirs(&self) -> (count: u64)
        ensures
            count == self@.scanned_dirs,
    {
        self.scanned_dirs
    }

    /// How many bytes the counted files held.
    pub fn total_bytes(&self) -> (bytes: u64)
        ensures
            bytes == self@.total_bytes,
    {
        self.total_bytes
    }
}

} // verus!
