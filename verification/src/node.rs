//! The tree entity handed back to callers, and its mathematical model.

use vstd::prelude::*;

use crate::names::{display_name, display_name_of, extension_lower_of, file_extension_lower};

verus! {

/// What kind of filesystem entry a node stands for.
#[derive(Debug, Clone, Copy, PartialEq, Eq, Structural)]
pub enum FsNodeKind {
    File,
    Directory,
    Symlink,
    Other,
}

/// One filesystem entry of the returned, possibly pruned tree.
///
/// `size` of a directory is the sum over everything found beneath it,
/// whether or not it is still present in `children`.
#[derive(Debug)]
pub struct FsNode {
    pub name: String,
    pub path: String,
    pub kind: FsNodeKind,
    pub size: u64,
    pub children: Vec<FsNode>,
    pub extension: Option<String>,
    pub error: Option<String>,
}

/// The mathematical value of an [`FsNode`]: strings as sequences of
/// characters, the size as a natural number, the children as a sequence.
pub ghost struct NodeView {
    pub name: Seq<char>,
    pub path: Seq<char>,
    pub kind: FsNodeKind,
    pub size: nat,
    pub children: Seq<NodeView>,
    pub extension: Option<Seq<char>>,
    pub error: Option<Seq<char>>,
}

/// The characters of an optional string.
pub open spec fn text_of(s: Option<String>) -> Option<Seq<char>> {
    match s {
        Some(t) => Some(t@),
        None => None,
    }
}

impl View for FsNode {
    type V = NodeView;

    open spec fn view(&self) -> NodeView
        decreases self,
    {
        NodeView {
            name: self.name@,
            path: self.path@,
            kind: self.kind,
            size: self.size as nat,
            children: Seq::new(
                self.children@.len(),
                |i: int|
                    if 0 <= i < self.children@.len() {
                        self.children@[i].view()
                    } else {
                        arbitrary()
                    },
            ),
            extension: text_of(self.extension),
            error: text_of(self.error),
        }
    }
}

/// The values of a sequence of nodes, in order.
pub open spec fn views(nodes: Seq<FsNode>) -> Seq<NodeView> {
    Seq::new(nodes.len(), |i: int| nodes[i]@)
}

/// How many nodes a tree holds, its root included.
pub open spec fn node_count(node: NodeView) -> nat
    decreases node,
{
    1 + forest_count(node.children)
}

/// How many nodes the trees of a sequence hold together.
pub open spec fn forest_count(nodes: Seq<NodeView>) -> nat
    decreases nodes,
{
    if nodes.len() == 0 {
        0
    } else {
        forest_count(nodes.drop_last()) + node_count(nodes.last())
    }
}

/// The sizes along a sequence never increase.
pub open spec fn largest_first(nodes: Seq<NodeView>) -> bool {
    forall|i: int, j: int| 0 <= i <= j < nodes.len() ==> nodes[i].size >= nodes[j].size
}

/// What holds of every node that is kept as a child: it has at least
/// `floor` bytes, it is a file or a directory (a link never is one), and it
/// carries no diagnostic.
pub open spec fn admissible(node: NodeView, floor: nat) -> bool {
    &&& node.size >= floor
    &&& (node.kind == FsNodeKind::File || node.kind == FsNodeKind::Directory)
    &&& node.error is None
}

/// The shape that pruning leaves behind, at every depth below `node`:
/// only a directory has children; they come largest first, there are at most
/// `fanout` of them, and each of them is admissible.
pub open spec fn pruned(node: NodeView, floor: nat, fanout: nat) -> bool
    decreases node,
{
    &&& node.kind != FsNodeKind::Directory ==> node.children.len() == 0
    &&& node.children.len() <= fanout
    &&& largest_first(node.children)
    &&& forall|i: int|
        0 <= i < node.children.len() ==> {
            &&& admissible(#[trigger] node.children[i], floor)
            &&& pruned(node.children[i], floor, fanout)
        }
}

/// Every tree of the sequence is a retained child: admissible, and pruned
/// beneath.
pub open spec fn all_retained(nodes: Seq<NodeView>, floor: nat, fanout: nat) -> bool {
    forall|i: int|
        0 <= i < nodes.len() ==> {
            &&& admissible(#[trigger] nodes[i], floor)
            &&& pruned(nodes[i], floor, fanout)
        }
}

/// Whether `node` appears in a children list somewhere in the tree `root`.
pub open spec fn lies_below(root: NodeView, node: NodeView) -> bool
    decreases root,
{
    exists|i: int|
        0 <= i < root.children.len() && (#[trigger] root.children[i] == node || lies_below(
            root.children[i],
            node,
        ))
}

/// In a pruned tree the bounds hold in every children list, however deep:
/// whatever appears as a child has at least `floor` bytes, is a file or a
/// directory and carries no diagnostic; it shows at most `fanout` children,
/// largest first, and none at all unless it is a directory.
pub proof fn lemma_pruned_throughout(root: NodeView, node: NodeView, floor: nat, fanout: nat)
    requires
        pruned(root, floor, fanout),
        lies_below(root, node),
    ensures
        admissible(node, floor),
        pruned(node, floor, fanout),
        node.children.len() <= fanout,
        largest_first(node.children),
        node.kind != FsNodeKind::Directory ==> node.children.len() == 0,
    decreases root,
{
    let i = choose|i: int|
        0 <= i < root.children.len() && (#[trigger] root.children[i] == node || lies_below(
            root.children[i],
            node,
        ));
    assert(admissible(root.children[i], floor) && pruned(root.children[i], floor, fanout));
    if root.children[i] != node {
        lemma_pruned_throughout(root.children[i], node, floor, fanout);
    }
}

/// A copy of an optional string.
fn clone_text(text: &Option<String>) -> (copy: Option<String>)
    ensures
        text_of(copy) == text_of(*text),
{
    match text {
        Some(t) => Some(t.clone()),
        None => None,
    }
}

impl Clone for FsNode {
    /// A deep copy: the same value, held in storage of its own.
    fn clone(&self) -> (copy: FsNode)
        ensures
            copy@ == self@,
        decreases self,
    {
        let mut children: Vec<FsNode> = Vec::new();
        let mut i: usize = 0;
        while i < self.children.len()
            invariant
                i <= self.children.len(),
                children.len() == i,
                forall|j: int| 0 <= j < i ==> children@[j]@ == self.children@[j]@,
            decreases self.children.len() - i,
        {
            let child = self.children[i].clone();
            children.push(child);
            i += 1;
        }
        let copy = FsNode {
            name: self.name.clone(),
            path: self.path.clone(),
            kind: self.kind,
            size: self.size,
            children,
            extension: clone_text(&self.extension),
            error: clone_text(&self.error),
        };
        proof {
            lemma_view_children(copy);
            lemma_view_children(*self);
            assert(views(copy.children@) =~= views(self.children@));
        }
        copy
    }
}

/// The children of a node's value are the values of its children.
pub proof fn lemma_view_children(node: FsNode)
    ensures
        node@.children == views(node.children@),
{
    reveal_with_fuel(<FsNode as View>::view, 2);
    assert(node@.children =~= views(node.children@));
}

/// The extension that a node of kind `kind` at `path` carries: only a file
/// has one.
pub open spec fn extension_for(kind: FsNodeKind, path: Seq<char>) -> Option<Seq<char>> {
    if kind == FsNodeKind::File {
        extension_lower_of(path)
    } else {
        None
    }
}

/// The value of a node without children: named after `path` and, if it is a
/// file, with its lowercased extension.
pub open spec fn leaf_view(
    path: Seq<char>,
    kind: FsNodeKind,
    size: nat,
    error: Option<Seq<char>>,
) -> NodeView {
    NodeView {
        name: display_name_of(path),
        path,
        kind,
        size,
        children: Seq::empty(),
        extension: extension_for(kind, path),
        error,
    }
}

/// The extension of `path` if `kind` is a file, none otherwise.
fn extension_of_kind(kind: FsNodeKind, path: &str) -> (extension: Option<String>)
    ensures
        text_of(extension) == extension_for(kind, path@),
{
    match kind {
        FsNodeKind::File => file_extension_lower(path),
        _ => None,
    }
}

/// The node that stands for a path whose metadata could not be read: no
/// size, no children, and the diagnostic `err`. Only a file has an
/// extension.
pub fn error_node(path: &str, kind: FsNodeKind, err: &str) -> (node: FsNode)
    ensures
        node@ == leaf_view(path@, kind, 0, Some(err@)),
        kind != FsNodeKind::File ==> node@.extension is None,
{
    let node = FsNode {
        name: display_name(path),
        path: path.to_owned(),
        kind,
        size: 0,
        children: Vec::new(),
        extension: extension_of_kind(kind, path),
        error: Some(err.to_owned()),
    };
    proof {
        lemma_view_children(node);
        assert(views(node.children@) =~= Seq::empty());
    }
    node
}

impl FsNode {
    /// The node of an entry that is not descended into: named after `path`,
    /// without children or diagnostic. Only a file has an extension.
    pub fn leaf(path: String, kind: FsNodeKind, size: u64) -> (node: FsNode)
        ensures
            node@ == leaf_view(path@, kind, size as nat, None),
            kind != FsNodeKind::File ==> node@.extension is None,
    {
        let name = display_name(path.as_str());
        let extension = extension_of_kind(kind, path.as_str());
        let node = FsNode { name, path, kind, size, children: Vec::new(), extension, error: None };
        proof {
            lemma_view_children(node);
            assert(views(node.children@) =~= Seq::empty());
        }
        node
    }
}

} // verus!
