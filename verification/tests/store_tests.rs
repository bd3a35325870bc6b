use diff_rs::{
    hash, Blob, BlobStub, Commit, FsObject, FsObjectStub, FsObjectType, ObjectStore, Tree,
    TreeStub, VcError, VcHashId, VcObject,
};

fn tree_of(entries: Vec<(&str, FsObject)>) -> Tree {
    Tree::new(
        entries
            .into_iter()
            .map(|(n, o)| (n.to_string(), o))
            .collect(),
    )
}

// Round trip: what was put can be got back, content equal, for a blob.
#[test]
fn store_blob_round_trip() {
    let mut store = ObjectStore::new();
    let b = Blob::new(b"hello world");
    let h = store.put_blob(&b);
    assert_eq!(h, b.hash);
    assert!(store.contains(&h));
    let b2 = store.get_blob(&h).unwrap();
    assert_eq!(b2.data, b.data);
    assert_eq!(b2.hash, b.hash);
    // putting the same content again changes nothing
    store.put_blob(&Blob::new(b"hello world"));
    let b3 = store.get_blob(&h).unwrap();
    assert_eq!(b3.data, b.data);
}

// Round trip for a tree: the listing comes back as a shallow stub.
#[test]
fn store_tree_round_trip() {
    let mut store = ObjectStore::new();
    let t = tree_of(vec![
        ("a.txt", FsObject::Blob(Blob::new(b"hello"))),
        ("sub dir entry", FsObject::Blob(Blob::new(b"spaced name"))),
    ]);
    let h = store.put_tree(&t);
    let stub = store.get_tree_stub(&h).unwrap();
    assert_eq!(stub, TreeStub::from_tree(&t));
}

// Round trip for a commit: every field comes back.
#[test]
fn store_commit_round_trip() {
    let mut store = ObjectStore::new();
    let t = tree_of(vec![("f", FsObject::Blob(Blob::new(b"data")))]);
    let c = Commit::new(
        t,
        None,
        "alice".to_string(),
        "a message\nwith a second line".to_string(),
        123456,
    );
    let h = store.put_commit(&c);
    let stub = store.get_commit_stub(&h).unwrap();
    assert_eq!(stub.hashstr, c.get_hash_str());
    assert_eq!(stub.tree_hashstr, c.tree.get_hash_str());
    assert_eq!(stub.parent_hashstr, None);
    assert_eq!(stub.author, "alice");
    assert_eq!(stub.message, "a message\nwith a second line");
    assert_eq!(stub.timestamp, 123456);
}

// Resolving materialises the whole tree back, hashes verified.
#[test]
fn store_resolve_tree_round_trip() {
    let mut store = ObjectStore::new();
    let inner = tree_of(vec![("leaf.txt", FsObject::Blob(Blob::new(b"leaf data")))]);
    let t = tree_of(vec![
        ("a.txt", FsObject::Blob(Blob::new(b"hello"))),
        ("dir", FsObject::Tree(inner)),
    ]);
    // put every object, as a scan would
    store.put_blob(&Blob::new(b"hello"));
    store.put_blob(&Blob::new(b"leaf data"));
    match &t.listings[1].1 {
        FsObject::Tree(inner) => {
            store.put_tree(inner);
        },
        _ => panic!("expected the nested tree"),
    }
    let h = store.put_tree(&t);
    let resolved = store.resolve_tree(&h, 16).unwrap();
    assert_eq!(resolved.hash, t.hash);
    assert_eq!(resolved.listings.len(), 2);
    assert_eq!(resolved.listings[0].0, "a.txt");
    match &resolved.listings[0].1 {
        FsObject::Blob(b) => assert_eq!(b.data, b"hello".to_vec()),
        _ => panic!("expected a blob"),
    }
    match &resolved.listings[1].1 {
        FsObject::Tree(inner) => {
            assert_eq!(inner.listings.len(), 1);
            match &inner.listings[0].1 {
                FsObject::Blob(b) => assert_eq!(b.data, b"leaf data".to_vec()),
                _ => panic!("expected a blob"),
            }
        },
        _ => panic!("expected a tree"),
    }
    assert!(resolved.verify_hash_recursive());

    // resolving through the stub gives the same object
    let stub = FsObjectStub::TreeStub(TreeStub::from_tree(&t));
    let obj = store.resolve(&stub, 16).unwrap();
    match obj {
        FsObject::Tree(rt) => assert_eq!(rt.hash, t.hash),
        _ => panic!("expected a tree"),
    }
}

#[test]
fn store_resolve_commit() {
    let mut store = ObjectStore::new();
    let t = tree_of(vec![("f", FsObject::Blob(Blob::new(b"data")))]);
    store.put_blob(&Blob::new(b"data"));
    store.put_tree(&t);
    let c = Commit::new(t, None, "alice".to_string(), "m".to_string(), 5);
    store.put_commit(&c);
    let stub = diff_rs::CommitStub::from_commit(&c);
    let resolved = store.resolve_commit(&stub, 16).unwrap();
    assert_eq!(resolved.hash, c.hash);
    assert_eq!(resolved.tree.hash, c.tree.hash);
    assert_eq!(resolved.author, "alice");
}

// The uniform put stores any object kind under its own hash.
#[test]
fn store_put_dispatches_by_kind() {
    let mut store = ObjectStore::new();
    let b = Blob::new(b"payload");
    let h = store.put(&VcObject::FsObject(FsObject::Blob(Blob::new(b"payload"))));
    assert_eq!(h, b.hash);
    assert_eq!(store.get_blob(&h).unwrap().data, b.data);

    let t = tree_of(vec![("f", FsObject::Blob(Blob::new(b"payload")))]);
    let th = store.put(&VcObject::FsObject(FsObject::Tree(tree_of(vec![(
        "f",
        FsObject::Blob(Blob::new(b"payload")),
    )]))));
    assert_eq!(th, t.hash);
    assert!(store.get_tree_stub(&th).is_ok());

    let c = Commit::new(t, None, "a".to_string(), "m".to_string(), 1);
    let ch = c.hash.clone();
    let commit_hash = store.put(&VcObject::Commit(c));
    assert_eq!(commit_hash, ch);
    assert!(store.get_commit_stub(&ch).is_ok());
}

#[test]
fn store_missing_object_is_not_found() {
    let store = ObjectStore::new();
    let h = hash(b"never stored");
    assert_eq!(store.get_blob(&h).unwrap_err(), VcError::NotFound);
    assert_eq!(store.get_tree_stub(&h).unwrap_err(), VcError::NotFound);
    assert_eq!(store.get_commit_stub(&h).unwrap_err(), VcError::NotFound);
    assert_eq!(store.resolve_tree(&h, 16).unwrap_err(), VcError::NotFound);
}

// A record whose bytes do not hash to its key is corruption, never
// silently returned.
#[test]
fn store_detects_corrupt_blob() {
    let mut store = ObjectStore::new();
    let h = hash(b"the real content");
    store.put_raw(h.clone(), b"tampered content".to_vec());
    assert_eq!(store.get_blob(&h).unwrap_err(), VcError::Corruption);
}

#[test]
fn store_rejects_malformed_tree_record() {
    let mut store = ObjectStore::new();
    let t = tree_of(vec![("f", FsObject::Blob(Blob::new(b"x")))]);
    store.put_raw(t.hash.clone(), b"not a listing\n".to_vec());
    assert_eq!(
        store.get_tree_stub(&t.hash).unwrap_err(),
        VcError::ParseError
    );
    assert_eq!(
        store.get_commit_stub(&t.hash).unwrap_err(),
        VcError::ParseError
    );
}

// Tampering with a stored child's bytes while the parent's record still
// names the old hash surfaces as corruption when the parent is resolved.
#[test]
fn store_corrupt_child_fails_parent_resolution() {
    let mut store = ObjectStore::new();
    let b = Blob::new(b"original child");
    let t = tree_of(vec![("child", FsObject::Blob(Blob::new(b"original child")))]);
    // the tampered child goes in under the original hash
    store.put_raw(b.hash.clone(), b"tampered child".to_vec());
    store.put_tree(&t);
    assert_eq!(store.resolve_tree(&t.hash, 16).unwrap_err(), VcError::Corruption);
}

#[test]
fn store_resolve_blob_via_stub() {
    let mut store = ObjectStore::new();
    let b = Blob::new(b"payload");
    store.put_blob(&b);
    let stub = BlobStub::from_blob(&b);
    let resolved = store.resolve_blob(&stub).unwrap();
    assert_eq!(resolved.data, b.data);
    // a stub for content never stored resolves to NotFound
    let missing = BlobStub::from_blob(&Blob::new(b"never stored"));
    assert_eq!(store.resolve_blob(&missing).unwrap_err(), VcError::NotFound);
}

#[test]
fn tree_listing_kinds_round_trip() {
    let mut store = ObjectStore::new();
    let inner = tree_of(vec![("x", FsObject::Blob(Blob::new(b"1")))]);
    let t = tree_of(vec![
        ("blob entry", FsObject::Blob(Blob::new(b"b"))),
        ("tree entry", FsObject::Tree(inner)),
    ]);
    let h = store.put_tree(&t);
    let stub = store.get_tree_stub(&h).unwrap();
    assert_eq!(stub.listings[0].1 .0, FsObjectType::Blob);
    assert_eq!(stub.listings[1].1 .0, FsObjectType::Tree);
}

// A backward-linked history chain: each commit names its parent by hash,
// and walking parents through the store steps back one snapshot at a
// time until the root, whose parent is none.
#[test]
fn commit_chain_walks_back_through_the_store() {
    let mut store = ObjectStore::new();
    let mut parent: Option<Vec<u8>> = None;
    let mut hashes: Vec<Vec<u8>> = Vec::new();
    for k in 0..4u64 {
        let t = tree_of(vec![(
            "f",
            FsObject::Blob(Blob::new(format!("content {k}").as_bytes())),
        )]);
        store.put_blob(&Blob::new(format!("content {k}").as_bytes()));
        store.put_tree(&t);
        let c = Commit::new(t, parent.clone(), "a".to_string(), format!("c{k}"), k);
        store.put_commit(&c);
        parent = Some(c.hash.clone());
        hashes.push(c.hash);
    }
    // from the newest commit, each parent step reaches the one before
    let mut at = hashes[3].clone();
    for back in 1..=3usize {
        let stub = store.get_commit_stub(&at).unwrap();
        let parent_hex = stub.parent_hashstr.expect("a parent link");
        at = diff_rs::hex_string_to_hash(&parent_hex).unwrap();
        assert_eq!(at, hashes[3 - back]);
    }
    // the root has no parent
    let root = store.get_commit_stub(&at).unwrap();
    assert_eq!(root.parent_hashstr, None);
}
