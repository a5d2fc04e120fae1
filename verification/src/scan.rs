//! A scan from its host's side: how it begins at the root, and what each
//! entry does to the walk and to the progress counters.

use vstd::prelude::*;

use crate::error::{ScanError, ScanErrorView};
use crate::node::{leaf_view, node_count, pruned, FsNode, FsNodeKind};
use crate::options::ScanOptions;
use crate::progress::{
    throttle_open, ProgressReporter, ReporterView, ScanProgress, DIRS_PER_ATTEMPT,
    FILES_PER_ATTEMPT,
};
use crate::walk::{node_of, walk_step, Entry, EntryView, Walk, WalkView};

verus! {

/// What one entry brought: the finished root, if it finished the scan, and
/// the progress snapshot to send, if one fell due.
#[derive(Debug)]
pub struct Advance {
    pub finished: Option<FsNode>,
    pub progress: Option<ScanProgress>,
}

/// The size that a root which is not a directory reports: a file its
/// length, anything else nothing.
pub open spec fn root_leaf_size(kind: FsNodeKind, len: nat) -> nat {
    if kind == FsNodeKind::File {
        len
    } else {
        0
    }
}

/// The counters once `entry` was visited: a file counts with its size, a
/// directory counts whether or not it opens, nothing else counts.
pub open spec fn counted(pre: ReporterView, entry: EntryView) -> ReporterView {
    match entry {
        EntryView::File { size, .. } => pre.with_file(size),
        EntryView::Directory { .. } | EntryView::DeniedDirectory { .. } => pre.with_dir(),
        _ => pre,
    }
}

/// The path that a progress snapshot names after `entry` was visited.
pub open spec fn visited_path(entry: EntryView) -> Option<Seq<char>> {
    match entry {
        EntryView::File { path, .. } => Some(path),
        EntryView::Directory { path } => Some(path),
        EntryView::DeniedDirectory { path } => Some(path),
        _ => None,
    }
}

/// The counters once a root that is no directory was visited: only a file
/// counts.
pub open spec fn counted_root(pre: ReporterView, kind: FsNodeKind, len: nat) -> ReporterView {
    if kind == FsNodeKind::File {
        pre.with_file(len)
    } else {
        pre
    }
}

/// Whether a snapshot can follow the visit of `entry` that left the counters
/// at `post`: only a file or a directory is followed by one, a file on every
/// 512th, a directory on every 64th.
pub open spec fn snapshot_due(entry: EntryView, post: ReporterView) -> bool {
    match entry {
        EntryView::File { .. } => post.scanned_files % (FILES_PER_ATTEMPT as nat) == 0,
        EntryView::Directory { .. } | EntryView::DeniedDirectory { .. } => {
            post.scanned_dirs % (DIRS_PER_ATTEMPT as nat) == 0
        },
        _ => false,
    }
}

/// The result of a scan whose root, of kind `kind` and length `len`, is not
/// a directory: a leaf for it, with the progress snapshot to send if one
/// fell due. A link is not followed and has no size; a file is counted. For
/// a directory there is no such result: it has to be walked.
pub fn root_leaf(path: &str, kind: FsNodeKind, len: u64, progress: &mut ProgressReporter) -> (leaf:
    Option<(FsNode, Option<ScanProgress>)>)
    ensures
        leaf is None <==> kind == FsNodeKind::Directory,
        leaf matches Some((node, sent)) ==> {
            &&& node@ == leaf_view(path@, kind, root_leaf_size(kind, len as nat), None)
            &&& kind != FsNodeKind::File ==> sent is None
            &&& sent matches Some(snapshot) ==> {
                &&& snapshot@ == final(progress)@.snapshot(Some(path@))
                &&& final(progress)@.scanned_files % (FILES_PER_ATTEMPT as nat) == 0
                &&& throttle_open(old(progress)@.last_emit, final(progress)@.last_emit)
            }
        },
        leaf matches Some((_, None)) ==> final(progress)@ == counted_root(
            old(progress)@,
            kind,
            len as nat,
        ),
        kind == FsNodeKind::File ==> final(progress)@.same_counts(
            old(progress)@.with_file(len as nat),
        ),
        kind != FsNodeKind::File ==> final(progress)@ == old(progress)@,
{
    match kind {
        FsNodeKind::Directory => None,
        FsNodeKind::File => {
            let sent = progress.file_scanned(len, path);
            Some((FsNode::leaf(path.to_owned(), FsNodeKind::File, len), sent))
        },
        FsNodeKind::Symlink => Some((FsNode::leaf(path.to_owned(), FsNodeKind::Symlink, 0), None)),
        FsNodeKind::Other => Some((FsNode::leaf(path.to_owned(), FsNodeKind::Other, 0), None)),
    }
}

/// Begins the walk of the root directory `path`, which the host has opened:
/// the walk before its first entry, the root counted as a directory.
pub fn begin_walk(path: &str, opts: ScanOptions, progress: &mut ProgressReporter) -> (begun: (
    Walk,
    Option<ScanProgress>,
))
    ensures
        begun.0.wf(),
        begun.0@ == WalkView::start(path@, opts),
        final(progress)@.same_counts(old(progress)@.with_dir()),
        begun.1 matches Some(snapshot) ==> {
            &&& snapshot@ == final(progress)@.snapshot(Some(path@))
            &&& final(progress)@.scanned_dirs % (DIRS_PER_ATTEMPT as nat) == 0
            &&& throttle_open(old(progress)@.last_emit, final(progress)@.last_emit)
        },
        begun.1 is None ==> final(progress)@ == old(progress)@.with_dir(),
{
    let walk = Walk::new(path, opts);
    let sent = progress.dir_scanned(path);
    (walk, sent)
}

/// Takes the next entry: counts it, then lets the walk take its step.
///
/// A walk whose root was handed out takes no further entry: the call fails
/// with [`ScanError::Aborted`], and neither the walk nor the counters change.
pub fn advance(walk: &mut Walk, progress: &mut ProgressReporter, entry: Entry) -> (outcome: Result<
    Advance,
    ScanError,
>)
    requires
        old(walk).wf(),
    ensures
        final(walk).wf(),
        outcome is Err <==> old(walk)@.stack.len() == 0,
        outcome matches Err(error) ==> {
            &&& error@ == ScanErrorView::Aborted
            &&& final(walk)@ == old(walk)@
            &&& final(progress)@ == old(progress)@
        },
        outcome matches Ok(advance) ==> {
            &&& walk_step(old(walk)@, entry@, final(walk)@, node_of(advance.finished))
            &&& final(progress)@.same_counts(counted(old(progress)@, entry@))
            &&& advance.progress matches Some(sent) ==> {
                &&& visited_path(entry@) is Some
                &&& sent@ == final(progress)@.snapshot(visited_path(entry@))
                &&& snapshot_due(entry@, final(progress)@)
                &&& throttle_open(old(progress)@.last_emit, final(progress)@.last_emit)
            }
            &&& advance.progress is None ==> final(progress)@ == counted(old(progress)@, entry@)
            &&& advance.finished matches Some(root) ==> {
                &&& pruned(root@, old(walk)@.floor(), old(walk)@.fanout())
                &&& node_count(root@) <= 1 || node_count(root@) <= old(walk)@.budget()
            }
        },
{
    if walk.is_finished() {
        return Err(ScanError::Aborted);
    }
    let sent = match &entry {
        Entry::File { path, size } => progress.file_scanned(*size, path.as_str()),
        Entry::Directory { path } => progress.dir_scanned(path.as_str()),
        Entry::DeniedDirectory { path } => progress.dir_scanned(path.as_str()),
        _ => None,
    };
    match walk.step(entry) {
        Ok(finished) => Ok(Advance { finished, progress: sent }),
        Err(error) => Err(error),
    }
}

} // verus!
