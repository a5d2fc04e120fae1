//! The sizes that a walk reports are exact.
//!
//! Whatever the retention policy drops from the returned tree, the size of a
//! directory is the sum of the sizes of all files found beneath it, as far
//! as a `u64` holds it. This module states that against a model of what the
//! host finds on disk, and proves it of every walk.

use vstd::prelude::*;

use crate::node::{leaf_view, lies_below, FsNodeKind, NodeView};
use crate::options::ScanOptions;
use crate::retention::{
    is_largest_kept, is_offer_result, lemma_largest_kept_members, lemma_offer_result_members,
};
use crate::walk::{clamp, directory_view, walk_step, EntryView, FrameView, WalkView};

verus! {

/// What lies behind one entry of a directory, as the host meets it.
pub ghost enum DiskEntry {
    /// An entry that cannot be read.
    Unreadable,
    /// A symbolic link, whatever it points to.
    Symlink,
    /// Neither file, directory nor link.
    Other,
    /// A regular file.
    File { path: Seq<char>, size: nat },
    /// A directory that cannot be opened.
    DeniedDirectory { path: Seq<char> },
    /// A directory and what it holds.
    Directory { path: Seq<char>, entries: Seq<DiskEntry> },
}

/// The bytes of all files that can be reached from an entry without
/// following a link.
pub open spec fn logical_size(entry: DiskEntry) -> nat
    decreases entry,
{
    match entry {
        DiskEntry::File { size, .. } => size,
        DiskEntry::Directory { entries, .. } => listing_size(entries),
        _ => 0,
    }
}

/// The bytes of all files that can be reached from the entries of a
/// directory.
pub open spec fn listing_size(entries: Seq<DiskEntry>) -> nat
    decreases entries,
{
    if entries.len() == 0 {
        0
    } else {
        listing_size(entries.drop_last()) + logical_size(entries.last())
    }
}

/// What the host reports while it walks one entry, depth first: the entry
/// itself and, for a directory that opens, everything in it and its end.
pub open spec fn reported(entry: DiskEntry) -> Seq<EntryView>
    decreases entry,
{
    match entry {
        DiskEntry::Unreadable => seq![EntryView::Unreadable],
        DiskEntry::Symlink => seq![EntryView::Symlink],
        DiskEntry::Other => seq![EntryView::Other],
        DiskEntry::File { path, size } => seq![EntryView::File { path, size }],
        DiskEntry::DeniedDirectory { path } => seq![EntryView::DeniedDirectory { path }],
        DiskEntry::Directory { path, entries } => seq![EntryView::Directory { path }]
            + listing_reported(entries) + seq![EntryView::End],
    }
}

/// What the host reports while it walks the entries of a directory.
pub open spec fn listing_reported(entries: Seq<DiskEntry>) -> Seq<EntryView>
    decreases entries,
{
    if entries.len() == 0 {
        Seq::empty()
    } else {
        listing_reported(entries.drop_last()) + reported(entries.last())
    }
}

/// The sizes of the open directories, the root first.
pub open spec fn sizes_of(stack: Seq<FrameView>) -> Seq<nat> {
    Seq::new(stack.len(), |i: int| stack[i].size)
}

/// What one step does to the sizes of the open directories.
pub open spec fn sizes_step(sizes: Seq<nat>, entry: EntryView) -> Seq<nat> {
    if sizes.len() == 0 {
        sizes
    } else {
        match entry {
            EntryView::File { size, .. } => sizes.drop_last().push(clamp(sizes.last() + size)),
            EntryView::Directory { .. } => sizes.push(0),
            EntryView::End => {
                let rest = sizes.drop_last();
                if rest.len() == 0 {
                    rest
                } else {
                    rest.drop_last().push(clamp(rest.last() + sizes.last()))
                }
            },
            _ => sizes,
        }
    }
}

/// What a sequence of steps does to the sizes of the open directories.
pub open spec fn sizes_after(sizes: Seq<nat>, entries: Seq<EntryView>) -> Seq<nat>
    decreases entries.len(),
{
    if entries.len() == 0 {
        sizes
    } else {
        sizes_step(sizes_after(sizes, entries.drop_last()), entries.last())
    }
}

/// `states` are the states of a walk that took `entries` one after the
/// other, and `outputs` what each step handed out.
pub open spec fn is_run(
    states: Seq<WalkView>,
    entries: Seq<EntryView>,
    outputs: Seq<Option<NodeView>>,
) -> bool {
    &&& states.len() == entries.len() + 1
    &&& outputs.len() == entries.len()
    &&& forall|i: int|
        0 <= i < entries.len() ==> #[trigger] walk_step(
            states[i],
            entries[i],
            states[i + 1],
            outputs[i],
        )
}

/// A step changes the sizes of the open directories as [`sizes_step`] says,
/// and a root that it hands out has the size that its frame had reached.
pub proof fn lemma_step_sizes(
    pre: WalkView,
    entry: EntryView,
    post: WalkView,
    done: Option<NodeView>,
)
    requires
        walk_step(pre, entry, post, done),
    ensures
        sizes_of(post.stack) == sizes_step(sizes_of(pre.stack), entry),
        done matches Some(root) ==> pre.stack.len() == 1 && root.size == pre.stack[0].size,
{
    let before = sizes_of(pre.stack);
    let after = sizes_of(post.stack);
    if pre.stack.len() > 0 {
        let top = pre.stack.last();
        let rest = pre.stack.drop_last();
        match entry {
            EntryView::File { path, size } => {
                assert(after =~= before.drop_last().push(clamp(before.last() + size)));
            },
            EntryView::Directory { path } => {
                assert(after =~= before.push(0));
            },
            EntryView::End => {
                if rest.len() == 0 {
                    assert(after =~= before.drop_last());
                } else {
                    let parent = rest.last();
                    assert(before.drop_last().last() == parent.size);
                    assert(after =~= before.drop_last().drop_last().push(
                        clamp(parent.size + top.size),
                    ));
                }
            },
            _ => {},
        }
    }
}

/// A run changes the sizes of the open directories as [`sizes_after`] says.
pub proof fn lemma_run_sizes(
    states: Seq<WalkView>,
    entries: Seq<EntryView>,
    outputs: Seq<Option<NodeView>>,
)
    requires
        is_run(states, entries, outputs),
    ensures
        sizes_of(states.last().stack) == sizes_after(sizes_of(states[0].stack), entries),
    decreases entries.len(),
{
    if entries.len() > 0 {
        let n = entries.len() as int;
        assert(is_run(states.drop_last(), entries.drop_last(), outputs.drop_last())) by {
            assert forall|i: int| 0 <= i < n - 1 implies #[trigger] walk_step(
                states.drop_last()[i],
                entries.drop_last()[i],
                states.drop_last()[i + 1],
                outputs.drop_last()[i],
            ) by {
                assert(walk_step(states[i], entries[i], states[i + 1], outputs[i]));
            }
        }
        lemma_run_sizes(states.drop_last(), entries.drop_last(), outputs.drop_last());
        assert(walk_step(states[n - 1], entries[n - 1], states[n], outputs[n - 1]));
        lemma_step_sizes(states[n - 1], entries[n - 1], states[n], outputs[n - 1]);
    }
}

/// Steps taken one after the other compose.
pub proof fn lemma_sizes_after_concat(sizes: Seq<nat>, first: Seq<EntryView>, then: Seq<EntryView>)
    ensures
        sizes_after(sizes, first + then) == sizes_after(sizes_after(sizes, first), then),
    decreases then.len(),
{
    if then.len() == 0 {
        assert(first + then =~= first);
    } else {
        lemma_sizes_after_concat(sizes, first, then.drop_last());
        assert((first + then).drop_last() =~= first + then.drop_last());
    }
}

/// A single step, seen as a run of one.
proof fn lemma_sizes_after_one(sizes: Seq<nat>, entry: EntryView)
    ensures
        sizes_after(sizes, seq![entry]) == sizes_step(sizes, entry),
{
    assert(seq![entry].drop_last() =~= Seq::<EntryView>::empty());
    assert(sizes_after(sizes, seq![entry].drop_last()) == sizes);
}

/// The directory on top with `bytes` more found in it.
pub open spec fn with_more(sizes: Seq<nat>, bytes: nat) -> Seq<nat> {
    sizes.drop_last().push(clamp(sizes.last() + bytes))
}

/// Walking one entry adds exactly its logical size to the directory that
/// holds it, and leaves every directory below untouched: whatever is in the
/// entry, however deep, and whatever was kept of it for display.
pub proof fn lemma_entry_adds_logical_size(sizes: Seq<nat>, entry: DiskEntry)
    requires
        sizes.len() > 0,
        sizes.last() <= u64::MAX,
    ensures
        sizes_after(sizes, reported(entry)) == with_more(sizes, logical_size(entry)),
    decreases entry,
{
    match entry {
        DiskEntry::Directory { path, entries } => {
            let open = seq![EntryView::Directory { path }];
            let inside = listing_reported(entries);
            let close = seq![EntryView::End];
            lemma_sizes_after_concat(sizes, open + inside, close);
            lemma_sizes_after_concat(sizes, open, inside);
            lemma_sizes_after_one(sizes, EntryView::Directory { path });
            lemma_listing_adds_logical_size(sizes.push(0), entries);
            let full = sizes.push(0).drop_last().push(clamp(0 + listing_size(entries)));
            assert(sizes_after(sizes, open + inside) == full);
            lemma_sizes_after_one(full, EntryView::End);
            assert(full.drop_last() =~= sizes);
            assert(sizes_step(full, EntryView::End) =~= with_more(sizes, listing_size(entries)));
        },
        DiskEntry::File { path, size } => {
            lemma_sizes_after_one(sizes, EntryView::File { path, size });
        },
        DiskEntry::Unreadable => {
            lemma_sizes_after_one(sizes, EntryView::Unreadable);
            assert(sizes =~= with_more(sizes, 0));
        },
        DiskEntry::Symlink => {
            lemma_sizes_after_one(sizes, EntryView::Symlink);
            assert(sizes =~= with_more(sizes, 0));
        },
        DiskEntry::Other => {
            lemma_sizes_after_one(sizes, EntryView::Other);
            assert(sizes =~= with_more(sizes, 0));
        },
        DiskEntry::DeniedDirectory { path } => {
            lemma_sizes_after_one(sizes, EntryView::DeniedDirectory { path });
            assert(sizes =~= with_more(sizes, 0));
        },
    }
}

/// Walking the entries of a directory adds exactly their logical sizes to
/// it.
pub proof fn lemma_listing_adds_logical_size(sizes: Seq<nat>, entries: Seq<DiskEntry>)
    requires
        sizes.len() > 0,
        sizes.last() <= u64::MAX,
    ensures
        sizes_after(sizes, listing_reported(entries)) == with_more(sizes, listing_size(entries)),
    decreases entries,
{
    if entries.len() == 0 {
        assert(sizes =~= with_more(sizes, 0));
    } else {
        let before = entries.drop_last();
        lemma_listing_adds_logical_size(sizes, before);
        let midway = with_more(sizes, listing_size(before));
        lemma_entry_adds_logical_size(midway, entries.last());
        lemma_sizes_after_concat(sizes, listing_reported(before), reported(entries.last()));
        assert(with_more(midway, logical_size(entries.last())) =~= with_more(
            sizes,
            listing_size(entries),
        ));
    }
}

/// Exactness of a whole scan: when the host has reported everything in the
/// root directory and then its end, the root that is handed out has the
/// logical size of all that the directory holds, as far as a `u64` holds it.
pub proof fn lemma_scan_size_exact(
    path: Seq<char>,
    opts: ScanOptions,
    entries: Seq<DiskEntry>,
    states: Seq<WalkView>,
    outputs: Seq<Option<NodeView>>,
    end: WalkView,
    done: Option<NodeView>,
)
    requires
        is_run(states, listing_reported(entries), outputs),
        states[0] == WalkView::start(path, opts),
        walk_step(states.last(), EntryView::End, end, done),
    ensures
        done matches Some(root) && root.size == clamp(listing_size(entries)),
{
    let first = sizes_of(states[0].stack);
    assert(first =~= seq![0nat]);
    lemma_run_sizes(states, listing_reported(entries), outputs);
    lemma_listing_adds_logical_size(first, entries);
    let last = states.last();
    assert(sizes_of(last.stack) =~= seq![clamp(listing_size(entries))]);
    assert(last.stack.len() == 1);
    assert(sizes_of(last.stack)[0] == last.stack[0].size);
    assert(last.stack.drop_last().len() == 0);
}

/// Exactness of an open directory: when the host has reported a directory
/// found during a walk and everything in it, up to but not including its
/// end, the frame on top of the stack is that directory's and has the
/// logical size of all that the directory holds; the frames below it have
/// the sizes they had before.
pub proof fn lemma_directory_size_exact(
    path: Seq<char>,
    entries: Seq<DiskEntry>,
    states: Seq<WalkView>,
    outputs: Seq<Option<NodeView>>,
)
    requires
        is_run(states, seq![EntryView::Directory { path }] + listing_reported(entries), outputs),
        states[0].stack.len() > 0,
    ensures
        sizes_of(states.last().stack) == sizes_of(states[0].stack).push(
            clamp(listing_size(entries)),
        ),
{
    let first = sizes_of(states[0].stack);
    let open = seq![EntryView::Directory { path }];
    lemma_run_sizes(states, open + listing_reported(entries), outputs);
    lemma_sizes_after_concat(first, open, listing_reported(entries));
    lemma_sizes_after_one(first, EntryView::Directory { path });
    lemma_listing_adds_logical_size(first.push(0), entries);
    assert(with_more(first.push(0), listing_size(entries)) =~= first.push(
        clamp(listing_size(entries)),
    ));
}

/// Whether `node` is what a walk shows of the disk entry `entry`: a file
/// with its path and length; or a directory with its path, the logical size
/// of all that it holds, and children each of which shows one of its
/// entries. Entries may be missing from the children; none is invented.
pub open spec fn shows(node: NodeView, entry: DiskEntry) -> bool
    decreases node,
{
    match entry {
        DiskEntry::File { path, size } => {
            &&& node.kind == FsNodeKind::File
            &&& node.path == path
            &&& node.size == size
            &&& node.children.len() == 0
        },
        DiskEntry::Directory { path, entries } => {
            &&& node.kind == FsNodeKind::Directory
            &&& node.path == path
            &&& node.size == clamp(listing_size(entries))
            &&& forall|i: int|
                #![trigger node.children[i]]
                0 <= i < node.children.len() ==> exists|j: int|
                    0 <= j < entries.len() && shows(node.children[i], #[trigger] entries[j])
        },
        _ => false,
    }
}

/// Whether `node` shows one of `entries`.
pub open spec fn shows_one_of(node: NodeView, entries: Seq<DiskEntry>) -> bool {
    exists|j: int| 0 <= j < entries.len() && shows(node, #[trigger] entries[j])
}

/// Whether the disk entry `inner` is `outer` or lies somewhere within it.
pub open spec fn holds(outer: DiskEntry, inner: DiskEntry) -> bool
    decreases outer,
{
    outer == inner || (outer matches DiskEntry::Directory { entries, .. } && exists|j: int|
        0 <= j < entries.len() && holds(#[trigger] entries[j], inner))
}

/// What walking something found in the directory on top does to a walk:
/// nothing below the top changes, the top keeps its path, `bytes` are added
/// to its size, and the options stay.
pub open spec fn adds_to_top(pre: WalkView, post: WalkView, bytes: nat) -> bool {
    &&& post.opts == pre.opts
    &&& post.stack.len() == pre.stack.len()
    &&& post.stack.drop_last() == pre.stack.drop_last()
    &&& post.stack.last().path == pre.stack.last().path
    &&& post.stack.last().size == clamp(pre.stack.last().size + bytes)
}

/// Every node of `after` was in `before` or shows `entry`.
pub open spec fn gains_only(before: Seq<NodeView>, after: Seq<NodeView>, entry: DiskEntry) -> bool {
    forall|i: int|
        0 <= i < after.len() ==> before.contains(#[trigger] after[i]) || shows(after[i], entry)
}

/// Every node of `after` was in `before` or shows one of `entries`.
pub open spec fn gains_only_of(
    before: Seq<NodeView>,
    after: Seq<NodeView>,
    entries: Seq<DiskEntry>,
) -> bool {
    forall|i: int|
        0 <= i < after.len() ==> before.contains(#[trigger] after[i]) || shows_one_of(
            after[i],
            entries,
        )
}

/// A run over two sequences of entries, one after the other, is a run over
/// the first followed by a run over the second.
proof fn lemma_run_split(
    states: Seq<WalkView>,
    first: Seq<EntryView>,
    then: Seq<EntryView>,
    outputs: Seq<Option<NodeView>>,
)
    requires
        is_run(states, first + then, outputs),
    ensures
        is_run(
            states.subrange(0, first.len() as int + 1),
            first,
            outputs.subrange(0, first.len() as int),
        ),
        is_run(
            states.subrange(first.len() as int, states.len() as int),
            then,
            outputs.subrange(first.len() as int, outputs.len() as int),
        ),
{
    let n = first.len() as int;
    let all = first + then;
    let states_a = states.subrange(0, n + 1);
    let outputs_a = outputs.subrange(0, n);
    let states_b = states.subrange(n, states.len() as int);
    let outputs_b = outputs.subrange(n, outputs.len() as int);
    assert forall|i: int| 0 <= i < first.len() implies #[trigger] walk_step(
        states_a[i],
        first[i],
        states_a[i + 1],
        outputs_a[i],
    ) by {
        assert(walk_step(states[i], all[i], states[i + 1], outputs[i]));
    }
    assert forall|i: int| 0 <= i < then.len() implies #[trigger] walk_step(
        states_b[i],
        then[i],
        states_b[i + 1],
        outputs_b[i],
    ) by {
        assert(walk_step(states[n + i], all[n + i], states[n + i + 1], outputs[n + i]));
    }
}

/// What a walk keeps of one entry. Walking an entry found in the directory
/// on top adds its logical size to that directory and touches nothing
/// below; and whatever the directory's buffer gains by it shows that entry,
/// with the exact size of every directory in it.
pub proof fn lemma_entry_is_shown(
    entry: DiskEntry,
    states: Seq<WalkView>,
    outputs: Seq<Option<NodeView>>,
)
    requires
        is_run(states, reported(entry), outputs),
        states[0].stack.len() > 0,
        states[0].stack.last().size <= u64::MAX,
    ensures
        adds_to_top(states[0], states.last(), logical_size(entry)),
        gains_only(states[0].stack.last().children, states.last().stack.last().children, entry),
    decreases entry,
{
    let pre = states[0];
    let post = states.last();
    let top = pre.stack.last();
    match entry {
        DiskEntry::Directory { path, entries } => {
            let open = seq![EntryView::Directory { path }];
            let inside = listing_reported(entries);
            let close = seq![EntryView::End];
            let n = (open + inside).len() as int;
            lemma_run_split(states, open + inside, close, outputs);
            let states_in = states.subrange(0, n + 1);
            let outputs_in = outputs.subrange(0, n);
            lemma_run_split(states_in, open, inside, outputs_in);
            let states_list = states_in.subrange(1, states_in.len() as int);
            let outputs_list = outputs_in.subrange(1, outputs_in.len() as int);
            let entered = states[1];
            let filled = states[n];
            assert(states_in.subrange(0, 2)[0] == pre);
            assert(states_in.subrange(0, 2)[1] == entered);
            assert(walk_step(
                states_in.subrange(0, 2)[0],
                open[0],
                states_in.subrange(0, 2)[1],
                outputs_in.subrange(0, 1)[0],
            ));
            assert(entered.stack.drop_last() =~= pre.stack);
            assert(states_list[0] == entered);
            assert(states_list.last() == filled);
            lemma_listing_is_shown(entries, states_list, outputs_list);
            let frame = filled.stack.last();
            assert(filled.stack.drop_last() == pre.stack);
            let states_out = states.subrange(n, states.len() as int);
            let outputs_out = outputs.subrange(n, outputs.len() as int);
            assert(states_out[0] == filled);
            assert(states_out[1] == post);
            assert(walk_step(states_out[0], close[0], states_out[1], outputs_out[0]));
            assert(post.stack.drop_last() =~= pre.stack.drop_last());
            assert forall|i: int| 0 <= i < frame.children.len() implies shows_one_of(
                #[trigger] frame.children[i],
                entries,
            ) by {
                assert(!Seq::<NodeView>::empty().contains(frame.children[i]));
            }
            if filled.admits(frame.size) {
                let after = post.stack.last().children;
                let shown = choose|shown: Seq<NodeView>| #[trigger]
                    is_largest_kept(frame.children, filled.fanout(), shown) && is_offer_result(
                        top.children,
                        directory_view(frame, shown),
                        filled.fanout(),
                        after,
                    );
                lemma_largest_kept_members(frame.children, filled.fanout(), shown);
                lemma_offer_result_members(
                    top.children,
                    directory_view(frame, shown),
                    filled.fanout(),
                    after,
                );
                let made = directory_view(frame, shown);
                assert forall|i: int| 0 <= i < made.children.len() implies shows_one_of(
                    #[trigger] made.children[i],
                    entries,
                ) by {
                    let k = choose|k: int|
                        0 <= k < frame.children.len() && frame.children[k] == shown[i];
                    assert(shows_one_of(frame.children[k], entries));
                }
                assert(shows(made, entry));
            }
        },
        DiskEntry::File { path, size } => {
            assert(walk_step(states[0], reported(entry)[0], states[1], outputs[0]));
            assert(post.stack.drop_last() =~= pre.stack.drop_last());
            if pre.admits(size) {
                let leaf = leaf_view(path, FsNodeKind::File, size, None);
                lemma_offer_result_members(
                    top.children,
                    leaf,
                    pre.fanout(),
                    post.stack.last().children,
                );
                assert(shows(leaf, entry));
            }
        },
        _ => {
            assert(walk_step(states[0], reported(entry)[0], states[1], outputs[0]));
        },
    }
}

/// What a walk keeps of the entries of a directory: their logical sizes are
/// added to it, and whatever its buffer gains shows one of them.
pub proof fn lemma_listing_is_shown(
    entries: Seq<DiskEntry>,
    states: Seq<WalkView>,
    outputs: Seq<Option<NodeView>>,
)
    requires
        is_run(states, listing_reported(entries), outputs),
        states[0].stack.len() > 0,
        states[0].stack.last().size <= u64::MAX,
    ensures
        adds_to_top(states[0], states.last(), listing_size(entries)),
        gains_only_of(
            states[0].stack.last().children,
            states.last().stack.last().children,
            entries,
        ),
    decreases entries,
{
    let pre = states[0];
    let post = states.last();
    if entries.len() > 0 {
        let earlier = entries.drop_last();
        let first = listing_reported(earlier);
        let then = reported(entries.last());
        let n = first.len() as int;
        lemma_run_split(states, first, then, outputs);
        let states_a = states.subrange(0, n + 1);
        let states_b = states.subrange(n, states.len() as int);
        let mid = states[n];
        assert(states_a[0] == pre);
        assert(states_a.last() == mid);
        assert(states_b[0] == mid);
        assert(states_b.last() == post);
        lemma_listing_is_shown(earlier, states_a, outputs.subrange(0, n));
        lemma_entry_is_shown(
            entries.last(),
            states_b,
            outputs.subrange(n, outputs.len() as int),
        );
        let before = pre.stack.last().children;
        let between = mid.stack.last().children;
        let after = post.stack.last().children;
        assert forall|i: int| 0 <= i < after.len() implies before.contains(#[trigger] after[i])
            || shows_one_of(after[i], entries) by {
            if between.contains(after[i]) {
                let k = choose|k: int| 0 <= k < between.len() && between[k] == after[i];
                if !before.contains(between[k]) {
                    let j = choose|j: int|
                        0 <= j < earlier.len() && shows(between[k], #[trigger] earlier[j]);
                    assert(earlier[j] == entries[j]);
                    assert(shows(after[i], entries[j]));
                }
            } else {
                assert(shows(after[i], entries[entries.len() - 1]));
            }
        }
    }
}

/// Exactness of the whole returned tree: when the host has reported
/// everything in the root directory and then its end, the root that is
/// handed out shows that directory. So does every node in it show the entry
/// it stands for: see [`lemma_every_node_is_exact`].
pub proof fn lemma_scan_tree_exact(
    path: Seq<char>,
    opts: ScanOptions,
    entries: Seq<DiskEntry>,
    states: Seq<WalkView>,
    outputs: Seq<Option<NodeView>>,
    end: WalkView,
    done: Option<NodeView>,
)
    requires
        is_run(states, listing_reported(entries), outputs),
        states[0] == WalkView::start(path, opts),
        walk_step(states.last(), EntryView::End, end, done),
    ensures
        done matches Some(root) && shows(root, DiskEntry::Directory { path, entries }),
{
    lemma_listing_is_shown(entries, states, outputs);
    let last = states.last();
    let frame = last.stack.last();
    assert(last.stack.drop_last().len() == 0);
    let root = done->Some_0;
    lemma_largest_kept_members(frame.children, last.fanout(), root.children);
    assert forall|i: int| 0 <= i < root.children.len() implies shows_one_of(
        #[trigger] root.children[i],
        entries,
    ) by {
        let k = choose|k: int| 0 <= k < frame.children.len() && frame.children[k] == root.children[i];
        assert(!Seq::<NodeView>::empty().contains(frame.children[k]));
        assert(shows_one_of(frame.children[k], entries));
    }
}

/// Exactness of every node: in a tree that shows a disk entry, each node,
/// the root or any node below it, shows an entry found within. A directory
/// node therefore has the path of a directory on disk and the logical size
/// of all that this directory holds, whatever was pruned from its children.
pub proof fn lemma_every_node_is_exact(root: NodeView, disk: DiskEntry, node: NodeView)
    requires
        shows(root, disk),
        node == root || lies_below(root, node),
    ensures
        exists|found: DiskEntry| #[trigger] holds(disk, found) && shows(node, found),
    decreases root,
{
    if node == root {
        assert(holds(disk, disk) && shows(node, disk));
    } else {
        let i = choose|i: int|
            0 <= i < root.children.len() && (#[trigger] root.children[i] == node || lies_below(
                root.children[i],
                node,
            ));
        let entries = disk->Directory_entries;
        assert(shows_one_of(root.children[i], entries));
        let j = choose|j: int|
            0 <= j < entries.len() && shows(root.children[i], #[trigger] entries[j]);
        lemma_every_node_is_exact(root.children[i], entries[j], node);
        let found = choose|found: DiskEntry| #[trigger]
            holds(entries[j], found) && shows(node, found);
        assert(holds(disk, found));
    }
}

} // verus!
