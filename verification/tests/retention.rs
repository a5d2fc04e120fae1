use treesize::node::{FsNode, FsNodeKind};
use treesize::retention::{finalize_children, maybe_keep_child};

fn file(name: &str, size: u64) -> FsNode {
    FsNode {
        name: name.to_string(),
        path: format!("/r/{}", name),
        kind: FsNodeKind::File,
        size,
        children: Vec::new(),
        extension: None,
        error: None,
    }
}

fn names(children: &Vec<FsNode>) -> Vec<String> {
    let mut out = Vec::new();
    for child in children {
        out.push(child.name.clone());
    }
    out
}

#[test]
fn offer_below_limit_appends_in_arrival_order() {
    let mut buffer = Vec::new();
    maybe_keep_child(&mut buffer, file("a", 1), 2);
    maybe_keep_child(&mut buffer, file("b", 9), 2);
    maybe_keep_child(&mut buffer, file("c", 5), 2);
    assert_eq!(names(&buffer), vec!["a", "b", "c"]);
}

#[test]
fn offer_at_twice_the_fanout_keeps_the_largest() {
    let mut buffer = Vec::new();
    maybe_keep_child(&mut buffer, file("a", 1), 2);
    maybe_keep_child(&mut buffer, file("b", 9), 2);
    maybe_keep_child(&mut buffer, file("c", 5), 2);
    maybe_keep_child(&mut buffer, file("d", 7), 2);
    assert_eq!(names(&buffer), vec!["b", "d"]);
    assert_eq!(buffer[0].size, 9);
    assert_eq!(buffer[1].size, 7);
}

#[test]
fn offer_never_leaves_more_than_twice_the_fanout() {
    let mut buffer = Vec::new();
    let mut i: u64 = 0;
    while i < 100 {
        maybe_keep_child(&mut buffer, file("f", i), 3);
        assert!(buffer.len() < 6);
        i += 1;
    }
    let kept = finalize_children(buffer, 3);
    assert_eq!(kept.len(), 3);
    assert_eq!(kept[0].size, 99);
    assert_eq!(kept[1].size, 98);
    assert_eq!(kept[2].size, 97);
}

#[test]
fn offer_with_fanout_zero_keeps_nothing() {
    let mut buffer = Vec::new();
    maybe_keep_child(&mut buffer, file("a", 10), 0);
    assert!(buffer.is_empty());
}

#[test]
fn offer_with_huge_fanout_does_not_overflow() {
    let mut buffer = Vec::new();
    maybe_keep_child(&mut buffer, file("a", 10), usize::MAX);
    maybe_keep_child(&mut buffer, file("b", 20), usize::MAX);
    assert_eq!(names(&buffer), vec!["a", "b"]);
}

#[test]
fn finalize_sorts_descending_and_cuts() {
    let buffer = vec![file("a", 3), file("b", 8), file("c", 1), file("d", 5)];
    let kept = finalize_children(buffer, 3);
    assert_eq!(names(&kept), vec!["b", "d", "a"]);
}

#[test]
fn finalize_keeps_all_when_fewer_than_fanout() {
    let buffer = vec![file("a", 3), file("b", 8)];
    let kept = finalize_children(buffer, 10);
    assert_eq!(names(&kept), vec!["b", "a"]);
}

#[test]
fn finalize_is_stable_among_equal_sizes() {
    let buffer = vec![file("x", 5), file("y", 9), file("z", 5), file("w", 5)];
    let kept = finalize_children(buffer, 10);
    assert_eq!(names(&kept), vec!["y", "x", "z", "w"]);
}

#[test]
fn finalize_of_empty_buffer_is_empty() {
    let kept = finalize_children(Vec::new(), 4);
    assert!(kept.is_empty());
}
