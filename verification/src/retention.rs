//! Which children of a directory stay in the returned tree.
//!
//! Candidates gather in a buffer. Whenever the buffer reaches twice the
//! fan-out it is ordered by descending size and cut back to the fan-out, so
//! that it never holds more than twice the fan-out and is not re-sorted on
//! every insert.

use vstd::prelude::*;
use vstd::seq_lib::*;

use crate::node::{admissible, all_retained, forest_count, largest_first, node_count, pruned, views, FsNode, NodeView};

verus! {

/// Whether a node has exactly `size` bytes.
pub open spec fn has_size(size: nat) -> spec_fn(NodeView) -> bool {
    |node: NodeView| node.size == size
}

/// The nodes of `nodes` whose size is exactly `size`, in their order.
pub open spec fn of_size(nodes: Seq<NodeView>, size: nat) -> Seq<NodeView> {
    nodes.filter(has_size(size))
}

/// `after` is `before` in stable descending order of size: the same nodes,
/// none added or lost; sizes never increasing; and nodes of equal size in the
/// order they had before.
pub open spec fn is_sorted_largest_first(before: Seq<NodeView>, after: Seq<NodeView>) -> bool {
    &&& after.to_multiset() == before.to_multiset()
    &&& largest_first(after)
    &&& forall|size: nat| #[trigger] of_size(after, size) == of_size(before, size)
}

/// The first `fanout` nodes of `sorted`, or all of them if there are fewer.
pub open spec fn cut(sorted: Seq<NodeView>, fanout: nat) -> Seq<NodeView> {
    if sorted.len() > fanout {
        sorted.take(fanout as int)
    } else {
        sorted
    }
}

/// `after` holds the `fanout` largest nodes of `before`, largest first.
pub open spec fn is_largest_kept(before: Seq<NodeView>, fanout: nat, after: Seq<NodeView>) -> bool {
    exists|sorted: Seq<NodeView>| #[trigger]
        is_sorted_largest_first(before, sorted) && after == cut(sorted, fanout)
}

/// The buffer length at which a buffer is cut back: twice the fan-out, or
/// the largest `usize` where that does not fit.
pub open spec fn buffer_limit(fanout: nat) -> nat {
    if 2 * fanout > usize::MAX {
        usize::MAX as nat
    } else {
        2 * fanout
    }
}

/// `after` is the buffer `before` once `child` was offered to it: `child` is
/// appended, and if that brings the buffer to its limit, only the `fanout`
/// largest stay.
pub open spec fn is_offer_result(
    before: Seq<NodeView>,
    child: NodeView,
    fanout: nat,
    after: Seq<NodeView>,
) -> bool {
    let grown = before.push(child);
    if grown.len() >= buffer_limit(fanout) {
        is_largest_kept(grown, fanout, after)
    } else {
        after == grown
    }
}

/// Sorts with the standard library's `sort_by`, comparing sizes in reverse.
/// Not proved: that `sort_by` reorders without adding or losing a node, that
/// the result is ordered by the comparison, and that it is stable. The
/// comparison is a total order on `u64`, so `sort_by` does not panic.
#[verifier::external_body]
fn sort_largest_first(children: &mut Vec<FsNode>)
    ensures
        is_sorted_largest_first(views(old(children)@), views(final(children)@)),
{
    children.sort_by(|a, b| b.size.cmp(&a.size));
}

/// Twice the fan-out, saturating.
fn doubled(max_children_per_dir: usize) -> (limit: usize)
    ensures
        limit == buffer_limit(max_children_per_dir as nat),
{
    if max_children_per_dir > usize::MAX / 2 {
        usize::MAX
    } else {
        max_children_per_dir * 2
    }
}

/// The value of a buffer after a push is the old value with the pushed
/// node's value appended.
pub proof fn lemma_views_push(nodes: Seq<FsNode>, node: FsNode)
    ensures
        views(nodes.push(node)) == views(nodes).push(node@),
{
    assert(views(nodes.push(node)) =~= views(nodes).push(node@));
}

/// Counting the nodes of a forest is a left fold over its trees.
proof fn lemma_forest_count_is_fold(nodes: Seq<NodeView>)
    ensures
        forest_count(nodes) == nodes.fold_left(
            0nat,
            |count: nat, node: NodeView| count + node_count(node),
        ),
    decreases nodes.len(),
{
    if nodes.len() > 0 {
        lemma_forest_count_is_fold(nodes.drop_last());
    }
}

/// Appending a tree adds its nodes to the count.
pub proof fn lemma_forest_count_push(nodes: Seq<NodeView>, node: NodeView)
    ensures
        forest_count(nodes.push(node)) == forest_count(nodes) + node_count(node),
{
    assert(nodes.push(node).drop_last() =~= nodes);
}

/// A prefix of a forest holds no more nodes than the forest.
pub proof fn lemma_forest_count_take(nodes: Seq<NodeView>, n: int)
    requires
        0 <= n <= nodes.len(),
    ensures
        forest_count(nodes.take(n)) <= forest_count(nodes),
    decreases nodes.len(),
{
    if n == nodes.len() {
        assert(nodes.take(n) =~= nodes);
    } else {
        lemma_forest_count_take(nodes.drop_last(), n);
        assert(nodes.drop_last().take(n) =~= nodes.take(n));
    }
}

/// Reordering a forest leaves its node count unchanged.
pub proof fn lemma_forest_count_reordered(before: Seq<NodeView>, after: Seq<NodeView>)
    requires
        after.to_multiset() == before.to_multiset(),
    ensures
        forest_count(after) == forest_count(before),
{
    let f = |count: nat, node: NodeView| count + node_count(node);
    lemma_forest_count_is_fold(before);
    lemma_forest_count_is_fold(after);
    assert(commutative_foldl(f));
    lemma_fold_left_permutation(before, after, f, 0nat);
}

/// The nodes of one size, seen from the end of the sequence.
proof fn lemma_of_size_last(nodes: Seq<NodeView>, size: nat)
    requires
        nodes.len() > 0,
    ensures
        of_size(nodes, size) == if nodes.last().size == size {
            of_size(nodes.drop_last(), size).push(nodes.last())
        } else {
            of_size(nodes.drop_last(), size)
        },
{
    assert(nodes =~= nodes.drop_last().push(nodes.last()));
    nodes.drop_last().lemma_filter_push(nodes.last(), has_size(size));
}

/// Whatever is among the nodes of one size is in the sequence, and has
/// that size.
proof fn lemma_of_size_member(nodes: Seq<NodeView>, size: nat, i: int)
    requires
        0 <= i < of_size(nodes, size).len(),
    ensures
        nodes.contains(of_size(nodes, size)[i]),
        of_size(nodes, size)[i].size == size,
    decreases nodes.len(),
{
    nodes.lemma_filter_len(has_size(size));
    if nodes.len() > 0 {
        lemma_of_size_last(nodes, size);
        let shorter = nodes.drop_last();
        if i < of_size(shorter, size).len() {
            lemma_of_size_member(shorter, size, i);
            let found = of_size(shorter, size)[i];
            let j = choose|j: int| 0 <= j < shorter.len() && shorter[j] == found;
            assert(nodes[j] == found);
        } else {
            assert(nodes[nodes.len() - 1] == nodes.last());
        }
    }
}

/// Two sequences that both come largest first and agree, size by size, on
/// which nodes they hold and in which order, are the same sequence.
pub proof fn lemma_order_is_unique(a: Seq<NodeView>, b: Seq<NodeView>)
    requires
        largest_first(a),
        largest_first(b),
        a.len() == b.len(),
        forall|size: nat| #[trigger] of_size(a, size) == of_size(b, size),
    ensures
        a == b,
    decreases a.len(),
{
    if a.len() == 0 {
        assert(a =~= b);
    } else {
        let x = a.last();
        let y = b.last();
        lemma_of_size_last(a, x.size);
        lemma_of_size_last(b, y.size);
        assert(of_size(a, y.size) == of_size(b, y.size));
        assert(of_size(a, x.size) == of_size(b, x.size));
        // The last of `b` is somewhere in `a`, so it is no smaller than the
        // last of `a`; and the other way round.
        lemma_of_size_member(a, y.size, of_size(a, y.size).len() - 1);
        let i = choose|i: int| 0 <= i < a.len() && a[i] == y;
        assert(a[i].size >= a[a.len() - 1].size);
        lemma_of_size_member(b, x.size, of_size(b, x.size).len() - 1);
        let j = choose|j: int| 0 <= j < b.len() && b[j] == x;
        assert(b[j].size >= b[b.len() - 1].size);
        assert(x.size == y.size);
        assert(x == y);
        let shorter_a = a.drop_last();
        let shorter_b = b.drop_last();
        assert forall|size: nat| #[trigger]
            of_size(shorter_a, size) == of_size(shorter_b, size) by {
            lemma_of_size_last(a, size);
            lemma_of_size_last(b, size);
            assert(of_size(a, size) == of_size(b, size));
            if size == x.size {
                assert(of_size(shorter_a, size) =~= of_size(a, size).drop_last());
                assert(of_size(shorter_b, size) =~= of_size(b, size).drop_last());
            }
        }
        lemma_order_is_unique(shorter_a, shorter_b);
        assert(a =~= shorter_a.push(x));
        assert(b =~= shorter_b.push(y));
    }
}

/// Stable descending order is unique: a buffer has one sorted form.
pub proof fn lemma_sorted_is_unique(before: Seq<NodeView>, a: Seq<NodeView>, b: Seq<NodeView>)
    requires
        is_sorted_largest_first(before, a),
        is_sorted_largest_first(before, b),
    ensures
        a == b,
{
    broadcast use group_to_multiset_ensures;

    assert(a.to_multiset().len() == b.to_multiset().len());
    assert forall|size: nat| #[trigger] of_size(a, size) == of_size(b, size) by {
        assert(of_size(a, size) == of_size(before, size));
        assert(of_size(b, size) == of_size(before, size));
    }
    lemma_order_is_unique(a, b);
}

/// Cutting a buffer back has one result.
pub proof fn lemma_largest_kept_is_unique(
    before: Seq<NodeView>,
    fanout: nat,
    a: Seq<NodeView>,
    b: Seq<NodeView>,
)
    requires
        is_largest_kept(before, fanout, a),
        is_largest_kept(before, fanout, b),
    ensures
        a == b,
{
    let sorted_a = choose|sorted: Seq<NodeView>| #[trigger]
        is_sorted_largest_first(before, sorted) && a == cut(sorted, fanout);
    let sorted_b = choose|sorted: Seq<NodeView>| #[trigger]
        is_sorted_largest_first(before, sorted) && b == cut(sorted, fanout);
    lemma_sorted_is_unique(before, sorted_a, sorted_b);
}

/// Offering a child to a buffer has one result.
pub proof fn lemma_offer_result_is_unique(
    before: Seq<NodeView>,
    child: NodeView,
    fanout: nat,
    a: Seq<NodeView>,
    b: Seq<NodeView>,
)
    requires
        is_offer_result(before, child, fanout, a),
        is_offer_result(before, child, fanout, b),
    ensures
        a == b,
{
    let grown = before.push(child);
    if grown.len() >= buffer_limit(fanout) {
        lemma_largest_kept_is_unique(grown, fanout, a, b);
    }
}

/// What cutting a buffer back preserves: every node that stays was there
/// before, so a buffer of retained children stays one; it holds no more
/// nodes than before; it comes largest first and within the fan-out.
pub proof fn lemma_largest_kept(
    before: Seq<NodeView>,
    fanout: nat,
    after: Seq<NodeView>,
    floor: nat,
)
    requires
        is_largest_kept(before, fanout, after),
        all_retained(before, floor, fanout),
    ensures
        all_retained(after, floor, fanout),
        forest_count(after) <= forest_count(before),
        largest_first(after),
        after.len() <= fanout,
        after.len() <= before.len(),
{
    broadcast use group_to_multiset_ensures;

    let sorted = choose|sorted: Seq<NodeView>| #[trigger]
        is_sorted_largest_first(before, sorted) && after == cut(sorted, fanout);
    assert(sorted.len() == before.len()) by {
        assert(sorted.to_multiset().len() == before.to_multiset().len());
    }
    lemma_forest_count_reordered(before, sorted);
    if sorted.len() > fanout {
        lemma_forest_count_take(sorted, fanout as int);
    }
    assert forall|i: int| 0 <= i < after.len() implies admissible(#[trigger] after[i], floor)
        && pruned(after[i], floor, fanout) by {
        assert(after[i] == sorted[i]);
        assert(sorted.contains(sorted[i]));
        assert(sorted.to_multiset().count(sorted[i]) > 0);
        assert(before.contains(sorted[i]));
        let j = choose|j: int| 0 <= j < before.len() && before[j] == sorted[i];
        assert(admissible(before[j], floor) && pruned(before[j], floor, fanout));
    }
}

/// Cutting a buffer back invents nothing: whatever stays was in the buffer.
pub proof fn lemma_largest_kept_members(before: Seq<NodeView>, fanout: nat, after: Seq<NodeView>)
    requires
        is_largest_kept(before, fanout, after),
    ensures
        forall|i: int| 0 <= i < after.len() ==> before.contains(#[trigger] after[i]),
{
    broadcast use group_to_multiset_ensures;

    let sorted = choose|sorted: Seq<NodeView>| #[trigger]
        is_sorted_largest_first(before, sorted) && after == cut(sorted, fanout);
    assert forall|i: int| 0 <= i < after.len() implies before.contains(#[trigger] after[i]) by {
        assert(after[i] == sorted[i]);
        assert(sorted.contains(sorted[i]));
        assert(sorted.to_multiset().count(sorted[i]) > 0);
    }
}

/// Offering a child to a buffer invents nothing: whatever the buffer holds
/// afterwards is the child or was in the buffer.
pub proof fn lemma_offer_result_members(
    before: Seq<NodeView>,
    child: NodeView,
    fanout: nat,
    after: Seq<NodeView>,
)
    requires
        is_offer_result(before, child, fanout, after),
    ensures
        forall|i: int|
            0 <= i < after.len() ==> (#[trigger] after[i]) == child || before.contains(after[i]),
{
    let grown = before.push(child);
    if grown.len() >= buffer_limit(fanout) {
        lemma_largest_kept_members(grown, fanout, after);
    }
    assert forall|i: int| 0 <= i < after.len() implies (#[trigger] after[i]) == child
        || before.contains(after[i]) by {
        assert(grown.contains(after[i]));
        let k = choose|k: int| 0 <= k < grown.len() && grown[k] == after[i];
        if k < before.len() {
            assert(before[k] == after[i]);
        }
    }
}

/// What offering a retained child to a buffer of retained children
/// preserves.
pub proof fn lemma_offer_result(
    before: Seq<NodeView>,
    child: NodeView,
    fanout: nat,
    after: Seq<NodeView>,
    floor: nat,
)
    requires
        is_offer_result(before, child, fanout, after),
        all_retained(before, floor, fanout),
        admissible(child, floor),
        pruned(child, floor, fanout),
        fanout <= usize::MAX,
    ensures
        all_retained(after, floor, fanout),
        forest_count(after) <= forest_count(before) + node_count(child),
        after.len() <= before.len() + 1,
        after.len() <= buffer_limit(fanout),
{
    let grown = before.push(child);
    lemma_forest_count_push(before, child);
    assert(all_retained(grown, floor, fanout)) by {
        assert forall|i: int| 0 <= i < grown.len() implies admissible(#[trigger] grown[i], floor)
            && pruned(grown[i], floor, fanout) by {
            if i < before.len() {
                assert(grown[i] == before[i]);
            }
        }
    }
    if grown.len() >= buffer_limit(fanout) {
        lemma_largest_kept(grown, fanout, after, floor);
    }
}

/// Offers `child` to the buffer `children`: appends it, and once the buffer
/// has reached twice `max_children_per_dir`, keeps only the
/// `max_children_per_dir` largest, largest first.
pub fn maybe_keep_child(children: &mut Vec<FsNode>, child: FsNode, max_children_per_dir: usize)
    ensures
        is_offer_result(
            views(old(children)@),
            child@,
            max_children_per_dir as nat,
            views(final(children)@),
        ),
{
    proof {
        lemma_views_push(children@, child);
    }
    children.push(child);
    if children.len() >= doubled(max_children_per_dir) {
        let ghost grown = views(children@);
        sort_largest_first(children);
        let ghost sorted = views(children@);
        proof {
            broadcast use group_to_multiset_ensures;

            assert(sorted.to_multiset().len() == grown.to_multiset().len());
        }
        children.truncate(max_children_per_dir);
        proof {
            assert(views(children@) =~= cut(sorted, max_children_per_dir as nat));
            assert(is_sorted_largest_first(grown, sorted) && views(children@) == cut(
                sorted,
                max_children_per_dir as nat,
            ));
        }
    }
}

/// The children that a finished directory shows: the
/// `max_children_per_dir` largest of its buffer, largest first.
pub fn finalize_children(children: Vec<FsNode>, max_children_per_dir: usize) -> (kept: Vec<FsNode>)
    ensures
        is_largest_kept(views(children@), max_children_per_dir as nat, views(kept@)),
{
    let mut kept = children;
    sort_largest_first(&mut kept);
    let ghost sorted = views(kept@);
    if kept.len() > max_children_per_dir {
        kept.truncate(max_children_per_dir);
    }
    proof {
        assert(views(kept@) =~= cut(sorted, max_children_per_dir as nat));
        assert(is_sorted_largest_first(views(children@), sorted) && views(kept@) == cut(
            sorted,
            max_children_per_dir as nat,
        ));
    }
    kept
}

} // verus!
