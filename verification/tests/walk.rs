use treesize::error::ScanError;
use treesize::node::{FsNode, FsNodeKind};
use treesize::options::ScanOptions;
use treesize::walk::{Entry, Walk};

const MIB: u64 = 1024 * 1024;

fn file(path: &str, size: u64) -> Entry {
    Entry::File { path: path.to_string(), size }
}

fn dir(path: &str) -> Entry {
    Entry::Directory { path: path.to_string() }
}

fn opts(min_node_bytes: u64, max_children_per_dir: usize, max_total_nodes: usize) -> ScanOptions {
    ScanOptions { min_node_bytes, max_children_per_dir, max_total_nodes }
}

fn run(walk: &mut Walk, entries: Vec<Entry>) -> Option<FsNode> {
    let mut finished = None;
    for entry in entries {
        assert!(finished.is_none());
        finished = walk.step(entry).unwrap();
    }
    finished
}

fn count_nodes(node: &FsNode) -> usize {
    let mut total = 1;
    for child in &node.children {
        total += count_nodes(child);
    }
    total
}

fn check_pruned(node: &FsNode, floor: u64, fanout: usize) {
    if node.kind != FsNodeKind::Directory {
        assert!(node.children.is_empty());
    }
    assert!(node.children.len() <= fanout);
    let mut last = u64::MAX;
    for child in &node.children {
        assert!(child.size >= floor);
        assert!(child.size <= last);
        last = child.size;
        check_pruned(child, floor, fanout);
    }
}

#[test]
fn scenario_mixed_directory() {
    let mut walk = Walk::new("/r", ScanOptions::for_request(Some(MIB)));
    let root = run(
        &mut walk,
        vec![
            file("/r/a", 2 * MIB),
            file("/r/b", 512 * 1024),
            dir("/r/sub"),
            file("/r/sub/c", 3 * MIB),
            Entry::End,
            Entry::End,
        ],
    )
    .unwrap();
    assert_eq!(root.name, "r");
    assert_eq!(root.path, "/r");
    assert_eq!(root.kind, FsNodeKind::Directory);
    assert_eq!(root.size, 5 * MIB + 512 * 1024);
    assert_eq!(root.extension, None);
    assert_eq!(root.error, None);
    assert_eq!(root.children.len(), 2);
    let sub = &root.children[0];
    assert_eq!(sub.name, "sub");
    assert_eq!(sub.path, "/r/sub");
    assert_eq!(sub.kind, FsNodeKind::Directory);
    assert_eq!(sub.size, 3 * MIB);
    assert_eq!(sub.children.len(), 1);
    assert_eq!(sub.children[0].name, "c");
    assert_eq!(sub.children[0].path, "/r/sub/c");
    assert_eq!(sub.children[0].kind, FsNodeKind::File);
    assert_eq!(sub.children[0].size, 3 * MIB);
    let a = &root.children[1];
    assert_eq!(a.name, "a");
    assert_eq!(a.kind, FsNodeKind::File);
    assert_eq!(a.size, 2 * MIB);
    assert!(a.children.is_empty());
    assert!(walk.is_finished());
}

#[test]
fn scenario_empty_directory() {
    let mut walk = Walk::new("/empty", ScanOptions::default());
    let root = walk.step(Entry::End).unwrap().unwrap();
    assert_eq!(root.kind, FsNodeKind::Directory);
    assert_eq!(root.size, 0);
    assert!(root.children.is_empty());
    assert_eq!(root.error, None);
    assert_eq!(root.name, "empty");
    assert_eq!(root.path, "/empty");
}

#[test]
fn new_walk_has_the_root_open() {
    let walk = Walk::new("/r", ScanOptions::default());
    assert!(!walk.is_finished());
    assert_eq!(walk.depth(), 1);
    assert_eq!(walk.returned_nodes(), 1);
    assert_eq!(walk.stats().skipped_entries, 0);
    assert!(!walk.stats().hit_node_limit);
    assert_eq!(walk.options(), ScanOptions::default());
}

#[test]
fn root_is_returned_even_below_the_floor() {
    let mut walk = Walk::new("/r", ScanOptions::for_request(Some(MIB)));
    let root = run(&mut walk, vec![file("/r/tiny", 10), Entry::End]).unwrap();
    assert_eq!(root.size, 10);
    assert!(root.children.is_empty());
    assert_eq!(root.error, None);
}

#[test]
fn files_below_the_floor_are_counted_but_not_shown() {
    let mut walk = Walk::new("/r", opts(100, 10, 100));
    let root = run(
        &mut walk,
        vec![file("/r/a", 99), file("/r/b", 100), file("/r/c", 101), Entry::End],
    )
    .unwrap();
    assert_eq!(root.size, 300);
    assert_eq!(root.children.len(), 2);
    assert_eq!(root.children[0].name, "c");
    assert_eq!(root.children[1].name, "b");
    check_pruned(&root, 100, 10);
}

#[test]
fn directories_below_the_floor_are_counted_but_not_shown() {
    let mut walk = Walk::new("/r", opts(100, 10, 100));
    let root = run(
        &mut walk,
        vec![
            dir("/r/small"),
            file("/r/small/x", 40),
            file("/r/small/y", 50),
            Entry::End,
            dir("/r/big"),
            file("/r/big/x", 60),
            file("/r/big/y", 70),
            Entry::End,
            Entry::End,
        ],
    )
    .unwrap();
    assert_eq!(root.size, 220);
    assert_eq!(root.children.len(), 1);
    assert_eq!(root.children[0].name, "big");
    assert_eq!(root.children[0].size, 130);
    assert!(root.children[0].children.is_empty());
    assert_eq!(root.error, None);
}

#[test]
fn symlinks_are_never_followed_or_counted() {
    let mut walk = Walk::new("/r", opts(1, 10, 100));
    let root = run(
        &mut walk,
        vec![file("/r/a", 5), Entry::Symlink, Entry::Other, file("/r/b", 7), Entry::End],
    )
    .unwrap();
    assert_eq!(root.size, 12);
    assert_eq!(root.children.len(), 2);
    for child in &root.children {
        assert_eq!(child.kind, FsNodeKind::File);
        assert!(child.children.is_empty());
    }
    assert_eq!(root.error, None);
}

#[test]
fn deep_nesting_completes() {
    let levels = 100_000;
    let mut walk = Walk::new("/deep", ScanOptions::default());
    let mut i = 0;
    while i < levels {
        assert!(walk.step(dir("/deep/d")).unwrap().is_none());
        i += 1;
    }
    assert_eq!(walk.depth(), levels + 1);
    i = 0;
    while i < levels {
        assert!(walk.step(Entry::End).unwrap().is_none());
        i += 1;
    }
    let root = walk.step(Entry::End).unwrap().unwrap();
    assert_eq!(root.size, 0);
    assert!(root.children.is_empty());
    assert_eq!(root.error, None);
}

#[test]
fn denied_subdirectory_is_skipped_and_siblings_are_sized() {
    let mut walk = Walk::new("/r", opts(1, 10, 100));
    let root = run(
        &mut walk,
        vec![
            file("/r/a", 10),
            Entry::DeniedDirectory { path: "/r/locked".to_string() },
            dir("/r/open"),
            file("/r/open/b", 20),
            Entry::End,
            Entry::End,
        ],
    )
    .unwrap();
    assert_eq!(root.size, 30);
    assert_eq!(root.children.len(), 2);
    assert_eq!(root.children[0].name, "open");
    assert_eq!(root.children[0].size, 20);
    assert_eq!(root.children[1].name, "a");
    assert_eq!(root.error, Some("Skipped 1 entries due to permission/errors.".to_string()));
}

#[test]
fn unreadable_entries_are_counted_as_skipped() {
    let mut walk = Walk::new("/r", ScanOptions::default());
    assert!(walk.step(Entry::Unreadable).unwrap().is_none());
    assert!(walk.step(Entry::Unreadable).unwrap().is_none());
    assert!(walk.step(Entry::DeniedDirectory { path: "/r/x".to_string() }).unwrap().is_none());
    assert_eq!(walk.stats().skipped_entries, 3);
    let root = walk.step(Entry::End).unwrap().unwrap();
    assert_eq!(root.size, 0);
    assert_eq!(root.error, Some("Skipped 3 entries due to permission/errors.".to_string()));
}

#[test]
fn node_budget_truncates_and_says_so() {
    let mut walk = Walk::new("/r", opts(1, 10, 3));
    let root = run(
        &mut walk,
        vec![
            file("/r/a", 10),
            file("/r/b", 20),
            file("/r/c", 30),
            Entry::Unreadable,
            Entry::End,
        ],
    )
    .unwrap();
    assert_eq!(root.size, 60);
    assert_eq!(root.children.len(), 2);
    assert_eq!(root.children[0].name, "b");
    assert_eq!(root.children[1].name, "a");
    assert_eq!(count_nodes(&root), 3);
    assert_eq!(
        root.error,
        Some(
            "Result truncated to <= 3 nodes for stability. Increase the minimum size filter to reduce output."
                .to_string()
        )
    );
}

#[test]
fn node_budget_applies_to_directories_too() {
    let mut walk = Walk::new("/r", opts(1, 10, 2));
    let root = run(
        &mut walk,
        vec![file("/r/a", 10), dir("/r/d"), file("/r/d/x", 50), Entry::End, Entry::End],
    )
    .unwrap();
    assert_eq!(root.size, 60);
    assert_eq!(root.children.len(), 1);
    assert_eq!(root.children[0].name, "a");
    assert_eq!(count_nodes(&root), 2);
    assert!(root.error.unwrap().starts_with("Result truncated to <= 2 nodes"));
}

#[test]
fn budget_of_zero_still_returns_the_root_alone() {
    let mut walk = Walk::new("/r", opts(0, 10, 0));
    let root = run(&mut walk, vec![file("/r/a", 10), Entry::End]).unwrap();
    assert_eq!(root.size, 10);
    assert!(root.children.is_empty());
    assert_eq!(count_nodes(&root), 1);
    assert!(root.error.unwrap().starts_with("Result truncated to <= 0 nodes"));
}

#[test]
fn budget_is_not_flagged_for_entries_below_the_floor() {
    let mut walk = Walk::new("/r", opts(100, 10, 1));
    let root = run(&mut walk, vec![file("/r/a", 10), file("/r/b", 20), Entry::End]).unwrap();
    assert_eq!(root.size, 30);
    assert!(root.children.is_empty());
    assert_eq!(root.error, None);
}

#[test]
fn fanout_bounds_every_directory() {
    let mut walk = Walk::new("/r", opts(1, 3, 1000));
    let mut entries = Vec::new();
    let mut i: u64 = 1;
    while i <= 20 {
        entries.push(file(&format!("/r/f{}", i), i));
        i += 1;
    }
    entries.push(dir("/r/d"));
    i = 1;
    while i <= 20 {
        entries.push(file(&format!("/r/d/g{}", i), 100 + i));
        i += 1;
    }
    entries.push(Entry::End);
    entries.push(Entry::End);
    let root = run(&mut walk, entries).unwrap();
    assert_eq!(root.size, 210 + 2210);
    assert_eq!(root.children.len(), 3);
    assert_eq!(root.children[0].name, "d");
    assert_eq!(root.children[0].size, 2210);
    assert_eq!(root.children[1].size, 20);
    assert_eq!(root.children[2].size, 19);
    let d = &root.children[0];
    assert_eq!(d.children.len(), 3);
    assert_eq!(d.children[0].size, 120);
    assert_eq!(d.children[1].size, 119);
    assert_eq!(d.children[2].size, 118);
    check_pruned(&root, 1, 3);
    assert!(count_nodes(&root) <= 1000);
}

#[test]
fn sizes_saturate_instead_of_overflowing() {
    let mut walk = Walk::new("/r", opts(1, 10, 100));
    let root = run(
        &mut walk,
        vec![
            file("/r/a", u64::MAX),
            dir("/r/d"),
            file("/r/d/b", u64::MAX - 1),
            file("/r/d/c", 5),
            Entry::End,
            Entry::End,
        ],
    )
    .unwrap();
    assert_eq!(root.size, u64::MAX);
    assert_eq!(root.children[1].name, "d");
    assert_eq!(root.children[1].size, u64::MAX);
}

#[test]
fn skipped_count_saturates() {
    let mut walk = Walk::new("/r", ScanOptions::default());
    let mut i = 0;
    while i < 1000 {
        assert!(walk.step(Entry::Unreadable).unwrap().is_none());
        i += 1;
    }
    assert_eq!(walk.stats().skipped_entries, 1000);
}

#[test]
fn a_finished_walk_takes_no_further_entry() {
    let mut walk = Walk::new("/r", ScanOptions::default());
    assert!(walk.step(Entry::End).unwrap().is_some());
    assert!(walk.is_finished());
    assert_eq!(walk.depth(), 0);
    assert!(matches!(walk.step(file("/r/late", 5)), Err(ScanError::Aborted)));
    assert!(matches!(walk.step(Entry::End), Err(ScanError::Aborted)));
    assert!(walk.is_finished());
}

#[test]
fn directory_frames_nest_and_unwind() {
    let mut walk = Walk::new("/r", opts(1, 10, 100));
    assert_eq!(walk.depth(), 1);
    assert!(walk.step(dir("/r/a")).unwrap().is_none());
    assert_eq!(walk.depth(), 2);
    assert!(walk.step(dir("/r/a/b")).unwrap().is_none());
    assert_eq!(walk.depth(), 3);
    assert!(walk.step(file("/r/a/b/f.TXT", 9)).unwrap().is_none());
    assert_eq!(walk.returned_nodes(), 2);
    assert!(walk.step(Entry::End).unwrap().is_none());
    assert_eq!(walk.depth(), 2);
    assert_eq!(walk.returned_nodes(), 3);
    assert!(walk.step(Entry::End).unwrap().is_none());
    assert_eq!(walk.returned_nodes(), 4);
    let root = walk.step(Entry::End).unwrap().unwrap();
    assert_eq!(root.size, 9);
    assert_eq!(root.children[0].name, "a");
    assert_eq!(root.children[0].children[0].name, "b");
    let leaf = &root.children[0].children[0].children[0];
    assert_eq!(leaf.name, "f.TXT");
    assert_eq!(leaf.extension, Some("txt".to_string()));
    assert_eq!(count_nodes(&root), 4);
}
