use treesize::names::{display_name, file_extension_lower, keep_nonempty, name_or_path};
use treesize::node::{error_node, FsNode, FsNodeKind};

#[test]
fn display_name_is_last_component() {
    assert_eq!(display_name("/r/a.txt"), "a.txt");
    assert_eq!(display_name("/r/sub"), "sub");
    assert_eq!(display_name("/r/sub/"), "sub");
    assert_eq!(display_name("relative/file"), "file");
}

#[test]
fn display_name_falls_back_to_whole_path() {
    assert_eq!(display_name("/"), "/");
    assert_eq!(display_name("a/.."), "a/..");
    assert_eq!(display_name(""), "");
}

#[test]
fn name_or_path_picks_component_first() {
    assert_eq!(name_or_path(Some("leaf".to_string()), "/x/leaf"), "leaf");
    assert_eq!(name_or_path(None, "/x/.."), "/x/..");
}

#[test]
fn extension_is_lowercased() {
    assert_eq!(file_extension_lower("/r/A.TXT"), Some("txt".to_string()));
    assert_eq!(file_extension_lower("/r/archive.tar.GZ"), Some("gz".to_string()));
    assert_eq!(file_extension_lower("photo.JpEg"), Some("jpeg".to_string()));
}

#[test]
fn extension_missing_or_empty_is_none() {
    assert_eq!(file_extension_lower("/r/noext"), None);
    assert_eq!(file_extension_lower("/r/.hidden"), None);
    assert_eq!(file_extension_lower("/r/trailing."), None);
    assert_eq!(file_extension_lower("/"), None);
}

#[test]
fn keep_nonempty_drops_only_the_empty_text() {
    assert_eq!(keep_nonempty(String::new()), None);
    assert_eq!(keep_nonempty("x".to_string()), Some("x".to_string()));
}

#[test]
fn error_node_carries_the_diagnostic() {
    let node = error_node("/r/Broken.LOG", FsNodeKind::File, "permission denied");
    assert_eq!(node.name, "Broken.LOG");
    assert_eq!(node.path, "/r/Broken.LOG");
    assert_eq!(node.kind, FsNodeKind::File);
    assert_eq!(node.size, 0);
    assert!(node.children.is_empty());
    assert_eq!(node.extension, Some("log".to_string()));
    assert_eq!(node.error, Some("permission denied".to_string()));
}

#[test]
fn leaf_is_named_after_its_path() {
    let node = FsNode::leaf("/r/Movie.MKV".to_string(), FsNodeKind::File, 42);
    assert_eq!(node.name, "Movie.MKV");
    assert_eq!(node.path, "/r/Movie.MKV");
    assert_eq!(node.kind, FsNodeKind::File);
    assert_eq!(node.size, 42);
    assert!(node.children.is_empty());
    assert_eq!(node.extension, Some("mkv".to_string()));
    assert_eq!(node.error, None);
}

#[test]
fn clone_copies_the_whole_tree() {
    let dir = FsNode {
        name: "d".to_string(),
        path: "/d".to_string(),
        kind: FsNodeKind::Directory,
        size: 30,
        children: vec![
            FsNode::leaf("/d/x.bin".to_string(), FsNodeKind::File, 20),
            FsNode::leaf("/d/y.bin".to_string(), FsNodeKind::File, 10),
        ],
        extension: None,
        error: Some("note".to_string()),
    };
    let copy = dir.clone();
    assert_eq!(copy.name, "d");
    assert_eq!(copy.size, 30);
    assert_eq!(copy.error, Some("note".to_string()));
    assert_eq!(copy.children.len(), 2);
    assert_eq!(copy.children[0].path, "/d/x.bin");
    assert_eq!(copy.children[0].size, 20);
    assert_eq!(copy.children[1].path, "/d/y.bin");
    assert_eq!(copy.children[1].extension, Some("bin".to_string()));
}

#[test]
fn error_node_of_a_directory_has_no_extension() {
    let node = error_node("/r/data.d", FsNodeKind::Directory, "denied");
    assert_eq!(node.extension, None);
    assert_eq!(node.kind, FsNodeKind::Directory);
    assert_eq!(node.name, "data.d");
    assert_eq!(node.size, 0);
    assert!(node.children.is_empty());
    assert_eq!(node.error, Some("denied".to_string()));
}

#[test]
fn only_a_file_leaf_has_an_extension() {
    let link = FsNode::leaf("/r/link.txt".to_string(), FsNodeKind::Symlink, 0);
    assert_eq!(link.extension, None);
    assert_eq!(link.name, "link.txt");
    let other = FsNode::leaf("/r/pipe.sock".to_string(), FsNodeKind::Other, 0);
    assert_eq!(other.extension, None);
    let file = FsNode::leaf("/r/note.TXT".to_string(), FsNodeKind::File, 1);
    assert_eq!(file.extension, Some("txt".to_string()));
}
