use diff_rs::{
    diff_fs_items, diff_text_lines, hash, tree_to_fs_item, Blob, Commit, DiffNode,
    DiffNodeFsItem, DiffNodeTextLines, FsObject, Tree,
};

fn tree_of(entries: Vec<(&str, FsObject)>) -> Tree {
    Tree::new(
        entries
            .into_iter()
            .map(|(n, o)| (n.to_string(), o))
            .collect(),
    )
}

fn line(n: u64, content: &[u8]) -> DiffNodeTextLines {
    DiffNodeTextLines::Line {
        line_num: n,
        content: content.to_vec(),
        hash: hash(content),
    }
}

fn binary_item(path: &str, data: &[u8]) -> DiffNodeFsItem {
    DiffNodeFsItem::BinaryFile {
        path: path.to_string(),
        hash: hash(data),
        size: data.len() as u64,
        modified: 0,
    }
}

// Diffing a node against itself yields NoChange at the top, with the
// node's own hash, and nothing below is decomposed.
#[test]
fn diff_of_identical_nodes_is_no_change() {
    let t = tree_of(vec![
        ("a", FsObject::Blob(Blob::new(b"1"))),
        ("b", FsObject::Blob(Blob::new(b"2"))),
    ]);
    let x = tree_to_fs_item("root", &t);
    let y = tree_to_fs_item("root", &t);
    let d = diff_fs_items(Some(&x), &y);
    match &d {
        DiffNodeFsItem::NoChange(inner) => match &**inner {
            DiffNodeFsItem::Dir { path, children, .. } => {
                assert_eq!(path, "root");
                assert_eq!(children.len(), 2);
            },
            _ => panic!("expected the directory back"),
        },
        _ => panic!("expected NoChange"),
    }
    assert_eq!(d.get_hash(), &t.hash);
    assert!(d.is_full_node());
    assert!(!d.is_incremental_node());
}

// A shared subtree with an equal hash is wrapped, not recursed into:
// the subtree reappears verbatim inside one NoChange node.
#[test]
fn diff_prunes_shared_subtree() {
    let shared = tree_of(vec![("same.txt", FsObject::Blob(Blob::new(b"unchanged")))]);
    let old_tree = tree_of(vec![
        ("changed.txt", FsObject::Blob(Blob::new(b"before"))),
        ("shared", FsObject::Tree(shared)),
    ]);
    let shared2 = tree_of(vec![("same.txt", FsObject::Blob(Blob::new(b"unchanged")))]);
    let new_tree = tree_of(vec![
        ("changed.txt", FsObject::Blob(Blob::new(b"after"))),
        ("shared", FsObject::Tree(shared2)),
    ]);
    let old_item = tree_to_fs_item("root", &old_tree);
    let new_item = tree_to_fs_item("root", &new_tree);
    let d = diff_fs_items(Some(&old_item), &new_item);
    match &d {
        DiffNodeFsItem::Modified { new, .. } => match &**new {
            DiffNodeFsItem::Dir { children, .. } => {
                assert_eq!(children.len(), 2);
                // changed.txt was modified
                match &children[0] {
                    DiffNodeFsItem::Modified { old, new } => {
                        assert_eq!(old.get_hash(), &hash(b"before"));
                        assert_eq!(new.get_hash(), &hash(b"after"));
                    },
                    _ => panic!("expected Modified for changed.txt"),
                }
                // the shared subtree is one NoChange wrapper holding the
                // whole directory, not a per-child decomposition
                match &children[1] {
                    DiffNodeFsItem::NoChange(inner) => match &**inner {
                        DiffNodeFsItem::Dir { children, .. } => {
                            assert_eq!(children.len(), 1);
                            match &children[0] {
                                DiffNodeFsItem::BinaryFile { .. } => {},
                                _ => panic!("the shared subtree must be embedded unchanged"),
                            }
                        },
                        _ => panic!("expected the shared directory"),
                    },
                    _ => panic!("expected NoChange for the shared subtree"),
                }
            },
            _ => panic!("expected a directory diff"),
        },
        _ => panic!("expected Modified"),
    }
}

// A directory child present only in the old snapshot is reported as
// deleted rather than silently dropped.
#[test]
fn diff_reports_deleted_children() {
    let old_tree = tree_of(vec![
        ("keep.txt", FsObject::Blob(Blob::new(b"kept"))),
        ("remove.txt", FsObject::Blob(Blob::new(b"going away"))),
    ]);
    let new_tree = tree_of(vec![("keep.txt", FsObject::Blob(Blob::new(b"kept")))]);
    let old_item = tree_to_fs_item("root", &old_tree);
    let new_item = tree_to_fs_item("root", &new_tree);
    let d = diff_fs_items(Some(&old_item), &new_item);
    match &d {
        DiffNodeFsItem::Modified { new, .. } => match &**new {
            DiffNodeFsItem::Dir { children, .. } => {
                assert_eq!(children.len(), 2);
                assert!(matches!(children[0], DiffNodeFsItem::NoChange(_)));
                match &children[1] {
                    DiffNodeFsItem::Deleted(inner) => {
                        assert_eq!(inner.get_path(), "remove.txt");
                    },
                    _ => panic!("expected Deleted for remove.txt"),
                }
            },
            _ => panic!("expected a directory diff"),
        },
        _ => panic!("expected Modified"),
    }
}

// History folding: a chain of nested modifications folds to the
// innermost new value; walking ancestors reaches the oldest version and
// one step beyond it exhausts the chain.
#[test]
fn history_folding_over_nested_modifications() {
    // two modifications nested through the new side
    let chain = DiffNodeFsItem::Modified {
        old: Box::new(binary_item("f", b"v1")),
        new: Box::new(DiffNodeFsItem::Modified {
            old: Box::new(binary_item("f", b"v2")),
            new: Box::new(binary_item("f", b"v3")),
        }),
    };
    // fold_history reaches the innermost new value
    assert_eq!(chain.fold_history().get_hash(), &hash(b"v3"));
    // one ancestor step back reaches the oldest version
    let oldest = chain.get_ancestor_n(1).unwrap();
    assert_eq!(oldest.get_hash(), &hash(b"v1"));
    // a step beyond the chain is exhausted
    assert!(chain.get_ancestor_n(2).is_none());
    assert!(chain.is_incremental_node());

    // modifications nested through the old side walk back step by step
    let spine = DiffNodeFsItem::Modified {
        old: Box::new(DiffNodeFsItem::Modified {
            old: Box::new(binary_item("f", b"w0")),
            new: Box::new(binary_item("f", b"w1")),
        }),
        new: Box::new(binary_item("f", b"w2")),
    };
    assert_eq!(spine.fold_history().get_hash(), &hash(b"w2"));
    let two_back = spine.get_ancestor_n(2).unwrap();
    assert_eq!(two_back.get_hash(), &hash(b"w0"));
    assert!(spine.get_ancestor_n(3).is_none());
}

// A NoChange wrapper delegates history to what it wraps.
#[test]
fn no_change_preserves_history() {
    let wrapped = DiffNodeFsItem::NoChange(Box::new(DiffNodeFsItem::Modified {
        old: Box::new(binary_item("f", b"old")),
        new: Box::new(binary_item("f", b"new")),
    }));
    let a = wrapped.get_ancestor().unwrap();
    assert_eq!(a.get_hash(), &hash(b"old"));
}

// Line-level diff: equal runs coalesce into one NoChange range, a
// differing line becomes a per-line modification, and surplus lines are
// added or deleted.
#[test]
fn line_diff_coalesces_and_reports() {
    let old_lines = vec![line(1, b"alpha"), line(2, b"beta"), line(3, b"gamma")];
    let new_lines = vec![
        line(1, b"alpha"),
        line(2, b"BETA"),
        line(3, b"gamma"),
        line(4, b"delta"),
    ];
    let spans = diff_text_lines(&old_lines, &new_lines);
    assert_eq!(spans.len(), 4);
    match &spans[0] {
        DiffNodeTextLines::NoChange(inner) => match &**inner {
            DiffNodeTextLines::LineRange { start, end, children, .. } => {
                assert_eq!((*start, *end), (1, 1));
                assert_eq!(children.len(), 1);
            },
            _ => panic!("expected a coalesced range"),
        },
        _ => panic!("expected NoChange for the first line"),
    }
    match &spans[1] {
        DiffNodeTextLines::Modified { old, new } => {
            assert_eq!(old.get_hash(), &hash(b"beta"));
            assert_eq!(new.get_hash(), &hash(b"BETA"));
        },
        _ => panic!("expected Modified for the second line"),
    }
    assert!(matches!(spans[2], DiffNodeTextLines::NoChange(_)));
    match &spans[3] {
        DiffNodeTextLines::Added(inner) => {
            assert_eq!(inner.get_start_line_num(), 4);
        },
        _ => panic!("expected Added for the surplus line"),
    }

    // a shrunk file reports deletions
    let spans2 = diff_text_lines(&new_lines, &old_lines);
    assert!(matches!(spans2[3], DiffNodeTextLines::Deleted(_)));
}

// An all-equal file coalesces into a single NoChange range whose hash
// combines the member line hashes.
#[test]
fn line_diff_all_equal_is_one_range() {
    let lines = vec![line(1, b"a"), line(2, b"b"), line(3, b"c")];
    let lines2 = vec![line(1, b"a"), line(2, b"b"), line(3, b"c")];
    let spans = diff_text_lines(&lines, &lines2);
    assert_eq!(spans.len(), 1);
    match &spans[0] {
        DiffNodeTextLines::NoChange(inner) => match &**inner {
            DiffNodeTextLines::LineRange { start, end, hash: range_hash, children } => {
                assert_eq!((*start, *end), (1, 3));
                assert_eq!(children.len(), 3);
                let hs: Vec<Vec<u8>> =
                    vec![hash(b"a"), hash(b"b"), hash(b"c")];
                assert_eq!(range_hash, &diff_rs::combine_hashes(&hs));
            },
            _ => panic!("expected a range"),
        },
        _ => panic!("expected one NoChange span"),
    }
}

// End-to-end: the second snapshot adds b.txt next to an unchanged
// a.txt; the diff is Modified at the top with exactly
// {a.txt: NoChange(hash of hello), b.txt: Added(hash of world)}.
#[test]
fn end_to_end_commit_diff() {
    let tree1 = tree_of(vec![("a.txt", FsObject::Blob(Blob::new(b"hello")))]);
    let item1 = tree_to_fs_item("", &tree1);
    let tree1_hash = tree1.hash.clone();
    let commit1 = Commit::new(tree1, None, "a".to_string(), "c1".to_string(), 1);

    let tree2 = tree_of(vec![
        ("a.txt", FsObject::Blob(Blob::new(b"hello"))),
        ("b.txt", FsObject::Blob(Blob::new(b"world"))),
    ]);
    let item2 = tree_to_fs_item("", &tree2);
    let tree2_hash = tree2.hash.clone();
    let commit2 = Commit::new(
        tree2,
        Some(commit1.hash.clone()),
        "a".to_string(),
        "c2".to_string(),
        2,
    );
    assert_eq!(commit2.parent, Some(commit1.hash.clone()));

    let d = diff_fs_items(Some(&item1), &item2);
    match &d {
        DiffNodeFsItem::Modified { old, new } => {
            assert_eq!(old.get_hash(), &tree1_hash);
            match &**new {
                DiffNodeFsItem::Dir { hash: dir_hash, children, .. } => {
                    assert_eq!(dir_hash, &tree2_hash);
                    assert_eq!(children.len(), 2);
                    match &children[0] {
                        DiffNodeFsItem::NoChange(inner) => {
                            assert_eq!(inner.get_path(), "a.txt");
                            assert_eq!(inner.get_hash(), &hash(b"hello"));
                        },
                        _ => panic!("expected NoChange for a.txt"),
                    }
                    match &children[1] {
                        DiffNodeFsItem::Added(inner) => {
                            assert_eq!(inner.get_path(), "b.txt");
                            assert_eq!(inner.get_hash(), &hash(b"world"));
                        },
                        _ => panic!("expected Added for b.txt"),
                    }
                },
                _ => panic!("expected a directory diff"),
            }
        },
        _ => panic!("expected Modified at the top"),
    }
    // the diff's top answers for the new snapshot
    assert_eq!(d.get_hash(), &tree2_hash);
    // and its ancestor is the old snapshot
    assert_eq!(d.get_ancestor().unwrap().get_hash(), &tree1_hash);
}

// A changed text file is modified with a line-level diff inside: the
// unchanged line is pruned into a range, the changed line is a per-line
// modification.
#[test]
fn diff_recurses_into_text_file_lines() {
    let old_file = DiffNodeFsItem::TextFile {
        path: "notes.txt".to_string(),
        hash: hash(b"keep\nold\n"),
        size: 9,
        modified: 10,
        location_node: Box::new(DiffNodeTextLines::LineRange {
            start: 1,
            end: 2,
            hash: diff_rs::combine_hashes(&vec![hash(b"keep"), hash(b"old")]),
            children: vec![line(1, b"keep"), line(2, b"old")],
        }),
    };
    let new_file = DiffNodeFsItem::TextFile {
        path: "notes.txt".to_string(),
        hash: hash(b"keep\nnew\n"),
        size: 9,
        modified: 20,
        location_node: Box::new(DiffNodeTextLines::LineRange {
            start: 1,
            end: 2,
            hash: diff_rs::combine_hashes(&vec![hash(b"keep"), hash(b"new")]),
            children: vec![line(1, b"keep"), line(2, b"new")],
        }),
    };
    let d = diff_fs_items(Some(&old_file), &new_file);
    match &d {
        DiffNodeFsItem::Modified { old, new } => {
            assert_eq!(old.get_hash(), &hash(b"keep\nold\n"));
            match &**new {
                DiffNodeFsItem::TextFile { location_node, .. } => match &**location_node {
                    DiffNodeTextLines::LineRange { children, .. } => {
                        assert_eq!(children.len(), 2);
                        assert!(matches!(children[0], DiffNodeTextLines::NoChange(_)));
                        match &children[1] {
                            DiffNodeTextLines::Modified { old, new } => {
                                assert_eq!(old.get_hash(), &hash(b"old"));
                                assert_eq!(new.get_hash(), &hash(b"new"));
                            },
                            _ => panic!("expected Modified for the changed line"),
                        }
                    },
                    _ => panic!("expected a line range"),
                },
                _ => panic!("expected a text file"),
            }
        },
        _ => panic!("expected Modified"),
    }
}

// A node without a counterpart in the old snapshot is added as a whole.
#[test]
fn diff_without_old_side_is_added() {
    let item = binary_item("new.bin", b"fresh");
    let d = diff_fs_items(None, &item);
    match &d {
        DiffNodeFsItem::Added(inner) => {
            assert_eq!(inner.get_path(), "new.bin");
        },
        _ => panic!("expected Added"),
    }
}

// Mismatched kinds are a full replacement: no content-level recursion.
#[test]
fn diff_mismatched_kinds_is_full_replacement() {
    let old_item = binary_item("thing", b"binary data");
    let new_item = DiffNodeFsItem::Symlink {
        path: "thing".to_string(),
        ref_path: "/elsewhere".to_string(),
        hash: hash(b"/elsewhere"),
        size: 0,
        modified: 0,
    };
    let d = diff_fs_items(Some(&old_item), &new_item);
    match &d {
        DiffNodeFsItem::Modified { old, new } => {
            assert_eq!(old.get_hash(), &hash(b"binary data"));
            assert!(matches!(&**new, DiffNodeFsItem::Symlink { .. }));
        },
        _ => panic!("expected Modified"),
    }
}

// Either node family fits under the one diff-node type.
#[test]
fn diff_node_wraps_both_families() {
    let item = DiffNode::FsItem(binary_item("f", b"x"));
    let lines = DiffNode::TextLines(line(1, b"x"));
    assert!(matches!(item, DiffNode::FsItem(_)));
    assert!(matches!(lines, DiffNode::TextLines(_)));
}

// Diffing two empty files yields no spans.
#[test]
fn line_diff_of_empty_files_is_empty() {
    let none: Vec<DiffNodeTextLines> = Vec::new();
    let spans = diff_text_lines(&none, &none);
    assert!(spans.is_empty());
}

// A directory's size folds its children's sizes by sum, its modification
// time by maximum; wrappers answer for their newest side.
#[test]
fn directory_folds_size_and_modified() {
    let dir = DiffNodeFsItem::Dir {
        path: "root".to_string(),
        hash: hash(b"whatever"),
        children: vec![
            DiffNodeFsItem::BinaryFile {
                path: "a".to_string(),
                hash: hash(b"a"),
                size: 10,
                modified: 100,
            },
            DiffNodeFsItem::Symlink {
                path: "l".to_string(),
                ref_path: "/t".to_string(),
                hash: hash(b"/t"),
                size: 2,
                modified: 300,
            },
            DiffNodeFsItem::Dir {
                path: "sub".to_string(),
                hash: hash(b"sub"),
                children: vec![DiffNodeFsItem::BinaryFile {
                    path: "b".to_string(),
                    hash: hash(b"b"),
                    size: 30,
                    modified: 200,
                }],
            },
        ],
    };
    assert_eq!(dir.get_size(), 42);
    assert_eq!(dir.get_modified(), 300);

    let empty = DiffNodeFsItem::Dir {
        path: "e".to_string(),
        hash: hash(b"e"),
        children: Vec::new(),
    };
    assert_eq!(empty.get_size(), 0);
    assert_eq!(empty.get_modified(), 0);

    let wrapped = DiffNodeFsItem::Modified {
        old: Box::new(binary_item("f", b"old")),
        new: Box::new(DiffNodeFsItem::BinaryFile {
            path: "f".to_string(),
            hash: hash(b"new"),
            size: 7,
            modified: 9,
        }),
    };
    assert_eq!(wrapped.get_size(), 7);
    assert_eq!(wrapped.get_modified(), 9);
}
