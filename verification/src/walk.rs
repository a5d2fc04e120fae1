//! The traversal engine: a walk over an explicit stack of open directories.
//!
//! The engine never touches the filesystem. Its host pulls the next entry of
//! the directory on top of the stack, says what it found, and the engine
//! answers with its next state. Sizes are summed over everything reported;
//! what is kept for display is bounded by the retention policy.

use vstd::prelude::*;

use crate::error::ScanError;
use crate::names::{display_name, display_name_of};
use crate::node::{
    all_retained, forest_count, leaf_view, lemma_view_children, node_count, pruned, views, FsNode,
    FsNodeKind, NodeView,
};
use crate::notice::{advisory, root_advisory};
use crate::options::{ScanOptions, ScanStats};
use crate::retention::{
    buffer_limit, finalize_children, is_largest_kept, is_offer_result, lemma_largest_kept,
    lemma_largest_kept_is_unique, lemma_offer_result, lemma_offer_result_is_unique,
    maybe_keep_child,
};

verus! {

/// What the host found when it pulled the next entry of the directory on top
/// of the stack.
#[derive(Debug)]
pub enum Entry {
    /// The entry, or its metadata, could not be read.
    Unreadable,
    /// A symbolic link. It is never followed.
    Symlink,
    /// Neither file, directory nor link.
    Other,
    /// A regular file of `size` bytes.
    File { path: String, size: u64 },
    /// A directory that the host has opened; its entries come next.
    Directory { path: String },
    /// A directory that could not be opened.
    DeniedDirectory { path: String },
    /// The directory on top of the stack has no further entry.
    End,
}

/// The mathematical value of an [`Entry`].
pub ghost enum EntryView {
    Unreadable,
    Symlink,
    Other,
    File { path: Seq<char>, size: nat },
    Directory { path: Seq<char> },
    DeniedDirectory { path: Seq<char> },
    End,
}

impl View for Entry {
    type V = EntryView;

    open spec fn view(&self) -> EntryView {
        match self {
            Entry::Unreadable => EntryView::Unreadable,
            Entry::Symlink => EntryView::Symlink,
            Entry::Other => EntryView::Other,
            Entry::File { path, size } => EntryView::File { path: path@, size: *size as nat },
            Entry::Directory { path } => EntryView::Directory { path: path@ },
            Entry::DeniedDirectory { path } => EntryView::DeniedDirectory { path: path@ },
            Entry::End => EntryView::End,
        }
    }
}

/// The mathematical value of one open directory: what it is called, how deep
/// it lies (the root at 0), the bytes found in it so far, and the children
/// provisionally kept for it.
pub ghost struct FrameView {
    pub path: Seq<char>,
    pub name: Seq<char>,
    pub depth: nat,
    pub size: nat,
    pub children: Seq<NodeView>,
}

/// The mathematical value of a walk.
pub ghost struct WalkView {
    pub opts: ScanOptions,
    /// The open directories, the root first.
    pub stack: Seq<FrameView>,
    pub skipped_entries: nat,
    pub hit_node_limit: bool,
    /// The nodes admitted to the returned tree so far, the root included.
    pub returned_nodes: nat,
}

/// A byte count as a `u64` holds it: sums stop at the largest `u64`.
pub open spec fn clamp(bytes: nat) -> nat {
    if bytes > u64::MAX {
        u64::MAX as nat
    } else {
        bytes
    }
}

/// The frame of a directory that has just been opened.
pub open spec fn opened(path: Seq<char>, depth: nat) -> FrameView {
    FrameView { path, name: display_name_of(path), depth, size: 0, children: Seq::empty() }
}

/// The node of a finished directory that shows `children`.
pub open spec fn directory_view(frame: FrameView, children: Seq<NodeView>) -> NodeView {
    NodeView {
        name: frame.name,
        path: frame.path,
        kind: FsNodeKind::Directory,
        size: frame.size,
        children,
        extension: None,
        error: None,
    }
}

/// How many nodes the buffers of a stack hold together.
pub open spec fn retained_in(stack: Seq<FrameView>) -> nat
    decreases stack.len(),
{
    if stack.len() == 0 {
        0
    } else {
        retained_in(stack.drop_last()) + forest_count(stack.last().children)
    }
}

impl FrameView {
    /// The frame once `bytes` more were found in it.
    pub open spec fn grown(self, bytes: nat) -> FrameView {
        FrameView { size: clamp(self.size + bytes), ..self }
    }

    /// The frame with another buffer.
    pub open spec fn holding(self, children: Seq<NodeView>) -> FrameView {
        FrameView { children, ..self }
    }
}

impl WalkView {
    pub open spec fn floor(self) -> nat {
        self.opts.min_node_bytes as nat
    }

    pub open spec fn fanout(self) -> nat {
        self.opts.max_children_per_dir as nat
    }

    pub open spec fn budget(self) -> nat {
        self.opts.max_total_nodes as nat
    }

    /// The walk before the first entry of the root directory `path`.
    pub open spec fn start(path: Seq<char>, opts: ScanOptions) -> WalkView {
        WalkView {
            opts,
            stack: seq![opened(path, 0)],
            skipped_entries: 0,
            hit_node_limit: false,
            returned_nodes: 1,
        }
    }

    /// Whether a candidate of `size` bytes is admitted to the returned tree:
    /// it reaches the floor, and the node budget is not spent.
    pub open spec fn admits(self, size: nat) -> bool {
        size >= self.floor() && self.returned_nodes < self.budget()
    }

    /// The walk with another stack.
    pub open spec fn on(self, stack: Seq<FrameView>) -> WalkView {
        WalkView { stack, ..self }
    }

    /// The walk once a candidate of `size` bytes was decided on, not yet
    /// placed: an admitted one is counted, one that only the budget keeps
    /// out is remembered as a truncation.
    pub open spec fn decided(self, size: nat) -> WalkView {
        if self.admits(size) {
            WalkView { returned_nodes: self.returned_nodes + 1, ..self }
        } else {
            WalkView { hit_node_limit: self.hit_node_limit || size >= self.floor(), ..self }
        }
    }

    /// The walk once one more entry was passed over.
    pub open spec fn skipping(self) -> WalkView {
        WalkView { skipped_entries: clamp(self.skipped_entries + 1), ..self }
    }

    /// What holds of every walk: each open directory lies as deep as its
    /// place in the stack; every buffer holds retained children only and
    /// stays within twice the fan-out; and the nodes in all buffers, with the
    /// root, are no more than were admitted, which is within the budget (or
    /// the root alone).
    pub open spec fn wf(self) -> bool {
        &&& forall|i: int|
            0 <= i < self.stack.len() ==> {
                &&& (#[trigger] self.stack[i]).depth == i
                &&& all_retained(self.stack[i].children, self.floor(), self.fanout())
                &&& self.stack[i].children.len() <= buffer_limit(self.fanout())
            }
        &&& 1 <= self.returned_nodes
        &&& self.returned_nodes <= 1 || self.returned_nodes <= self.budget()
        &&& self.stack.len() > 0 ==> 1 + retained_in(self.stack) <= self.returned_nodes
    }
}

/// One step of the walk: from `pre`, on `entry`, to `post`; `done` is the
/// finished root, if this step finished it.
///
/// - Nothing is open: nothing changes.
/// - An unreadable entry or a directory that cannot be opened is counted as
///   skipped; a link or another kind of entry changes nothing.
/// - A file adds its size to the directory on top; if admitted, it is offered
///   to that directory's buffer.
/// - An opened directory is pushed, one level deeper, empty.
/// - At the end of a directory its frame is popped and becomes a node that
///   shows the largest of its buffer. Below the root, its size is added to
///   its parent and the node, if admitted, is offered to the parent's buffer.
///   The root is handed out whatever its size, with the scan's diagnostic.
pub open spec fn walk_step(
    pre: WalkView,
    entry: EntryView,
    post: WalkView,
    done: Option<NodeView>,
) -> bool {
    if pre.stack.len() == 0 {
        post == pre && done is None
    } else {
        let top = pre.stack.last();
        let rest = pre.stack.drop_last();
        match entry {
            EntryView::Unreadable | EntryView::DeniedDirectory { .. } => {
                post == pre.skipping() && done is None
            },
            EntryView::Symlink | EntryView::Other => post == pre && done is None,
            EntryView::File { path, size } => {
                &&& done is None
                &&& post.stack.len() == pre.stack.len()
                &&& post == pre.decided(size).on(
                    rest.push(top.grown(size).holding(post.stack.last().children)),
                )
                &&& if pre.admits(size) {
                    is_offer_result(
                        top.children,
                        leaf_view(path, FsNodeKind::File, size, None),
                        pre.fanout(),
                        post.stack.last().children,
                    )
                } else {
                    post.stack.last().children == top.children
                }
            },
            EntryView::Directory { path } => {
                post == pre.on(pre.stack.push(opened(path, top.depth + 1))) && done is None
            },
            EntryView::End => {
                if rest.len() == 0 {
                    &&& post == pre.on(rest)
                    &&& done matches Some(root)
                    &&& is_largest_kept(top.children, pre.fanout(), root.children)
                    &&& root == (NodeView {
                        error: advisory(
                            pre.hit_node_limit,
                            pre.skipped_entries,
                            pre.budget(),
                        ),
                        ..directory_view(top, root.children)
                    })
                } else {
                    let parent = rest.last();
                    &&& done is None
                    &&& post.stack.len() == rest.len()
                    &&& post == pre.decided(top.size).on(
                        rest.drop_last().push(
                            parent.grown(top.size).holding(post.stack.last().children),
                        ),
                    )
                    &&& if pre.admits(top.size) {
                        exists|shown: Seq<NodeView>| #[trigger]
                            is_largest_kept(top.children, pre.fanout(), shown) && is_offer_result(
                                parent.children,
                                directory_view(top, shown),
                                pre.fanout(),
                                post.stack.last().children,
                            )
                    } else {
                        post.stack.last().children == parent.children
                    }
                }
            },
        }
    }
}

/// A step has one outcome: the state before it and the entry decide the
/// state after it and what is handed out. Nothing is left to chance, not
/// even the order among children of equal size.
pub proof fn lemma_step_is_determined(
    pre: WalkView,
    entry: EntryView,
    post_a: WalkView,
    done_a: Option<NodeView>,
    post_b: WalkView,
    done_b: Option<NodeView>,
)
    requires
        walk_step(pre, entry, post_a, done_a),
        walk_step(pre, entry, post_b, done_b),
    ensures
        post_a == post_b,
        done_a == done_b,
{
    if pre.stack.len() > 0 {
        let top = pre.stack.last();
        let rest = pre.stack.drop_last();
        match entry {
            EntryView::File { path, size } => {
                if pre.admits(size) {
                    lemma_offer_result_is_unique(
                        top.children,
                        leaf_view(path, FsNodeKind::File, size, None),
                        pre.fanout(),
                        post_a.stack.last().children,
                        post_b.stack.last().children,
                    );
                }
            },
            EntryView::End => {
                if rest.len() == 0 {
                    lemma_largest_kept_is_unique(
                        top.children,
                        pre.fanout(),
                        done_a->Some_0.children,
                        done_b->Some_0.children,
                    );
                } else if pre.admits(top.size) {
                    let parent = rest.last();
                    let shown_a = choose|shown: Seq<NodeView>| #[trigger]
                        is_largest_kept(top.children, pre.fanout(), shown) && is_offer_result(
                            parent.children,
                            directory_view(top, shown),
                            pre.fanout(),
                            post_a.stack.last().children,
                        );
                    let shown_b = choose|shown: Seq<NodeView>| #[trigger]
                        is_largest_kept(top.children, pre.fanout(), shown) && is_offer_result(
                            parent.children,
                            directory_view(top, shown),
                            pre.fanout(),
                            post_b.stack.last().children,
                        );
                    lemma_largest_kept_is_unique(top.children, pre.fanout(), shown_a, shown_b);
                    lemma_offer_result_is_unique(
                        parent.children,
                        directory_view(top, shown_a),
                        pre.fanout(),
                        post_a.stack.last().children,
                        post_b.stack.last().children,
                    );
                }
            },
            _ => {},
        }
    }
}

/// A link is never followed: meeting one changes nothing, whatever it
/// points to. No size is added, nothing is kept, and nothing is counted as
/// skipped. The same holds of an entry that is neither file, directory nor
/// link.
pub proof fn lemma_links_change_nothing(
    pre: WalkView,
    entry: EntryView,
    post: WalkView,
    done: Option<NodeView>,
)
    requires
        entry is Symlink || entry is Other,
        walk_step(pre, entry, post, done),
    ensures
        post == pre,
        done is None,
{
}

/// A failure below the root never ends the walk: an entry that cannot be
/// read, or a directory that cannot be opened, is counted as skipped and
/// changes nothing else. The open directories, their sizes and their
/// buffers stay as they are, and the walk goes on.
pub proof fn lemma_failures_are_only_counted(
    pre: WalkView,
    entry: EntryView,
    post: WalkView,
    done: Option<NodeView>,
)
    requires
        entry is Unreadable || entry is DeniedDirectory,
        pre.stack.len() > 0,
        walk_step(pre, entry, post, done),
    ensures
        post.skipped_entries == clamp(pre.skipped_entries + 1),
        post.stack == pre.stack,
        post.returned_nodes == pre.returned_nodes,
        post.hit_node_limit == pre.hit_node_limit,
        post.opts == pre.opts,
        done is None,
{
}

/// The value of an optional node.
pub open spec fn node_of(node: Option<FsNode>) -> Option<NodeView> {
    match node {
        Some(n) => Some(n@),
        None => None,
    }
}

/// One open directory of the walk.
#[derive(Debug)]
struct DirFrame {
    path: String,
    name: String,
    depth: usize,
    /// Bytes found in this directory, whether or not the entry is kept.
    size: u64,
    /// The children provisionally kept for display.
    children: Vec<FsNode>,
}

impl View for DirFrame {
    type V = FrameView;

    closed spec fn view(&self) -> FrameView {
        FrameView {
            path: self.path@,
            name: self.name@,
            depth: self.depth as nat,
            size: self.size as nat,
            children: views(self.children@),
        }
    }
}

/// The values of a stack of frames.
spec fn frames(stack: Seq<DirFrame>) -> Seq<FrameView> {
    Seq::new(stack.len(), |i: int| stack[i]@)
}

/// A walk in progress: the stack of open directories, the scan's tallies and
/// the count of nodes admitted so far.
#[derive(Debug)]
pub struct Walk {
    opts: ScanOptions,
    stack: Vec<DirFrame>,
    stats: ScanStats,
    returned_nodes: usize,
}

impl View for Walk {
    type V = WalkView;

    closed spec fn view(&self) -> WalkView {
        WalkView {
            opts: self.opts,
            stack: frames(self.stack@),
            skipped_entries: self.stats.skipped_entries as nat,
            hit_node_limit: self.stats.hit_node_limit,
            returned_nodes: self.returned_nodes as nat,
        }
    }
}

/// Pushing a frame adds the nodes of its buffer to the count.
proof fn lemma_retained_in_push(stack: Seq<FrameView>, frame: FrameView)
    ensures
        retained_in(stack.push(frame)) == retained_in(stack) + forest_count(frame.children),
{
    assert(stack.push(frame).drop_last() =~= stack);
}

impl Walk {
    /// Whether this walk keeps the invariant of [`WalkView::wf`].
    pub open spec fn wf(&self) -> bool {
        self@.wf()
    }

    /// A walk over the root directory `path`, which the host has opened.
    pub fn new(path: &str, opts: ScanOptions) -> (walk: Walk)
        ensures
            walk.wf(),
            walk@ == WalkView::start(path@, opts),
    {
        let root = DirFrame {
            path: path.to_owned(),
            name: display_name(path),
            depth: 0,
            size: 0,
            children: Vec::new(),
        };
        assert(root@.children =~= Seq::empty());
        let mut stack: Vec<DirFrame> = Vec::new();
        stack.push(root);
        let walk = Walk { opts, stack, stats: ScanStats::default(), returned_nodes: 1 };
        proof {
            assert(walk@.stack =~= seq![opened(path@, 0)]);
            assert(walk@.stack.drop_last() =~= Seq::empty());
            assert(retained_in(walk@.stack.drop_last()) == 0);
            assert(forest_count(walk@.stack.last().children) == 0);
        }
        walk
    }

    /// Whether the root was handed out, so that nothing is open any more.
    pub fn is_finished(&self) -> (finished: bool)
        ensures
            finished == (self@.stack.len() == 0),
    {
        self.stack.len() == 0
    }

    /// How many directories are open.
    pub fn depth(&self) -> (depth: usize)
        ensures
            depth == self@.stack.len(),
    {
        self.stack.len()
    }

    /// The options that this walk was made with.
    pub fn options(&self) -> (opts: ScanOptions)
        ensures
            opts == self@.opts,
    {
        self.opts
    }

    /// What the walk has had to leave out so far.
    pub fn stats(&self) -> (stats: ScanStats)
        ensures
            stats.skipped_entries == self@.skipped_entries,
            stats.hit_node_limit == self@.hit_node_limit,
    {
        self.stats
    }

    /// How many nodes were admitted to the returned tree so far, the root
    /// included.
    pub fn returned_nodes(&self) -> (count: usize)
        ensures
            count == self@.returned_nodes,
    {
        self.returned_nodes
    }

    /// Takes the frame on top of the stack.
    fn pop_frame(&mut self) -> (frame: DirFrame)
        requires
            old(self)@.stack.len() > 0,
        ensures
            frame@ == old(self)@.stack.last(),
            final(self)@ == old(self)@.on(old(self)@.stack.drop_last()),
    {
        let popped = self.stack.pop();
        proof {
            assert(frames(self.stack@) =~= frames(old(self).stack@).drop_last());
        }
        popped.unwrap()
    }

    /// Puts a frame on top of the stack.
    fn push_frame(&mut self, frame: DirFrame)
        ensures
            final(self)@ == old(self)@.on(old(self)@.stack.push(frame@)),
    {
        self.stack.push(frame);
        proof {
            assert(frames(self.stack@) =~= frames(old(self).stack@).push(frame@));
        }
    }

    /// Counts one entry as passed over.
    fn skip(&mut self)
        ensures
            final(self)@ == old(self)@.skipping(),
    {
        self.stats.skipped_entries = self.stats.skipped_entries.saturating_add(1);
    }

    /// A file of `size` bytes at `path` was found in the directory on top.
    fn visit_file(&mut self, path: String, size: u64)
        requires
            old(self).wf(),
            old(self)@.stack.len() > 0,
        ensures
            final(self).wf(),
            walk_step(
                old(self)@,
                EntryView::File { path: path@, size: size as nat },
                final(self)@,
                None,
            ),
    {
        let ghost pre = self@;
        let ghost top = pre.stack.last();
        let ghost rest = pre.stack.drop_last();
        let mut frame = self.pop_frame();
        frame.size = frame.size.saturating_add(size);
        if self.decide(size) {
            let node = FsNode::leaf(path, FsNodeKind::File, size);
            let ghost leaf = node@;
            maybe_keep_child(&mut frame.children, node, self.opts.max_children_per_dir);
            proof {
                lemma_offer_result(
                    top.children,
                    leaf,
                    pre.fanout(),
                    frame@.children,
                    pre.floor(),
                );
            }
        }
        self.push_frame(frame);
        proof {
            let post = self@;
            assert(post.stack.drop_last() =~= rest);
            assert(post.stack.last() == frame@);
            assert(pre.stack =~= rest.push(top));
            lemma_retained_in_push(rest, top);
            lemma_retained_in_push(rest, frame@);
            assert forall|i: int| 0 <= i < post.stack.len() implies {
                &&& (#[trigger] post.stack[i]).depth == i
                &&& all_retained(post.stack[i].children, post.floor(), post.fanout())
                &&& post.stack[i].children.len() <= buffer_limit(post.fanout())
            } by {
                if i < rest.len() {
                    assert(post.stack[i] == pre.stack[i]);
                }
            }
        }
    }

    /// The host has opened the directory at `path`, found in the directory
    /// on top.
    fn enter(&mut self, path: String)
        requires
            old(self).wf(),
            old(self)@.stack.len() > 0,
        ensures
            final(self).wf(),
            walk_step(old(self)@, EntryView::Directory { path: path@ }, final(self)@, None),
    {
        let ghost pre = self@;
        let depth = self.stack[self.stack.len() - 1].depth;
        assert(pre.stack.last() == self.stack@[self.stack@.len() - 1]@);
        let name = display_name(path.as_str());
        let frame = DirFrame { path, name, depth: depth + 1, size: 0, children: Vec::new() };
        assert(frame@.children =~= Seq::empty());
        self.push_frame(frame);
        proof {
            let post = self@;
            lemma_retained_in_push(pre.stack, frame@);
            assert forall|i: int| 0 <= i < post.stack.len() implies {
                &&& (#[trigger] post.stack[i]).depth == i
                &&& all_retained(post.stack[i].children, post.floor(), post.fanout())
                &&& post.stack[i].children.len() <= buffer_limit(post.fanout())
            } by {
                if i < pre.stack.len() {
                    assert(post.stack[i] == pre.stack[i]);
                }
            }
        }
    }

    /// The directory on top has no further entry.
    fn leave(&mut self) -> (done: Option<FsNode>)
        requires
            old(self).wf(),
            old(self)@.stack.len() > 0,
        ensures
            final(self).wf(),
            walk_step(old(self)@, EntryView::End, final(self)@, node_of(done)),
            done matches Some(root) ==> {
                &&& pruned(root@, old(self)@.floor(), old(self)@.fanout())
                &&& node_count(root@) <= old(self)@.returned_nodes
            },
    {
        let ghost pre = self@;
        let ghost top = pre.stack.last();
        let ghost rest = pre.stack.drop_last();
        let completed = self.pop_frame();
        let children = finalize_children(completed.children, self.opts.max_children_per_dir);
        let mut node = FsNode {
            name: completed.name,
            path: completed.path,
            kind: FsNodeKind::Directory,
            size: completed.size,
            children,
            extension: None,
            error: None,
        };
        let ghost shown = node@.children;
        proof {
            lemma_view_children(node);
            lemma_largest_kept(top.children, pre.fanout(), shown, pre.floor());
            assert(node@ == directory_view(top, shown));
            assert(pre.stack =~= rest.push(top));
            lemma_retained_in_push(rest, top);
        }
        if self.stack.len() > 0 {
            let ghost parent = rest.last();
            let ghost below = rest.drop_last();
            let mut frame = self.pop_frame();
            frame.size = frame.size.saturating_add(node.size);
            if self.decide(node.size) {
                maybe_keep_child(&mut frame.children, node, self.opts.max_children_per_dir);
                proof {
                    lemma_offer_result(
                        parent.children,
                        directory_view(top, shown),
                        pre.fanout(),
                        frame@.children,
                        pre.floor(),
                    );
                    assert(is_largest_kept(top.children, pre.fanout(), shown) && is_offer_result(
                        parent.children,
                        directory_view(top, shown),
                        pre.fanout(),
                        frame@.children,
                    ));
                }
            }
            self.push_frame(frame);
            proof {
                let post = self@;
                assert(post.stack.drop_last() =~= below);
                assert(post.stack.last() == frame@);
                assert(rest =~= below.push(parent));
                lemma_retained_in_push(below, parent);
                lemma_retained_in_push(below, frame@);
                assert forall|i: int| 0 <= i < post.stack.len() implies {
                    &&& (#[trigger] post.stack[i]).depth == i
                    &&& all_retained(post.stack[i].children, post.floor(), post.fanout())
                    &&& post.stack[i].children.len() <= buffer_limit(post.fanout())
                } by {
                    if i < below.len() {
                        assert(post.stack[i] == pre.stack[i]);
                    } else {
                        assert(parent == pre.stack[i]);
                    }
                }
            }
            None
        } else {
            node.error = root_advisory(&self.stats, self.opts.max_total_nodes);
            proof {
                lemma_view_children(node);
                assert(rest =~= Seq::empty());
            }
            Some(node)
        }
    }

    /// Takes the next entry that the host found in the directory on top of
    /// the stack, or the end of that directory.
    ///
    /// Hands out the finished root when the root directory ends; after that
    /// nothing is open, and every further call fails with
    /// [`ScanError::Aborted`] and changes nothing.
    ///
    /// The finished root is pruned throughout: no child anywhere in it is
    /// below the floor, no directory shows more than the fan-out, and it
    /// holds no more nodes than the budget, or itself alone.
    pub fn step(&mut self, entry: Entry) -> (outcome: Result<Option<FsNode>, ScanError>)
        requires
            old(self).wf(),
        ensures
            final(self).wf(),
            outcome is Err <==> old(self)@.stack.len() == 0,
            outcome matches Err(error) ==> error@ == crate::error::ScanErrorView::Aborted,
            walk_step(
                old(self)@,
                entry@,
                final(self)@,
                match outcome {
                    Ok(done) => node_of(done),
                    Err(_) => None,
                },
            ),
            outcome matches Ok(Some(root)) ==> {
                &&& pruned(root@, old(self)@.floor(), old(self)@.fanout())
                &&& node_count(root@) <= old(self)@.returned_nodes
                &&& node_count(root@) <= 1 || node_count(root@) <= old(self)@.budget()
            },
    {
        if self.stack.len() == 0 {
            return Err(ScanError::Aborted);
        }
        match entry {
            Entry::Unreadable => {
                self.skip();
                Ok(None)
            },
            Entry::DeniedDirectory { path } => {
                self.skip();
                Ok(None)
            },
            Entry::Symlink => Ok(None),
            Entry::Other => Ok(None),
            Entry::File { path, size } => {
                self.visit_file(path, size);
                Ok(None)
            },
            Entry::Directory { path } => {
                self.enter(path);
                Ok(None)
            },
            Entry::End => Ok(self.leave()),
        }
    }

    /// Decides on a candidate of `size` bytes: whether it is admitted.
    fn decide(&mut self, size: u64) -> (admitted: bool)
        requires
            old(self)@.returned_nodes <= 1 || old(self)@.returned_nodes <= old(self)@.budget(),
        ensures
            admitted == old(self)@.admits(size as nat),
            final(self)@ == old(self)@.decided(size as nat),
    {
        if size >= self.opts.min_node_bytes && self.returned_nodes < self.opts.max_total_nodes {
            self.returned_nodes += 1;
            true
        } else {
            if size >= self.opts.min_node_bytes {
                self.stats.hit_node_limit = true;
            }
            false
        }
    }
}

} // verus!
