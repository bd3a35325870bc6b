use diff_rs::{
    hash, hash_to_hex_string, Blob, BlobStub, Commit, CommitStub, FsObject, FsObjectType,
    MerkleError, Tree, TreeStub, VcHashId,
};
use sha2::Digest;

fn tree_of(entries: Vec<(&str, FsObject)>) -> Tree {
    Tree::new(
        entries
            .into_iter()
            .map(|(n, o)| (n.to_string(), o))
            .collect(),
    )
}

#[test]
fn merkle_error_carries_message() {
    let e = MerkleError::new("bad node");
    assert_eq!(e.message(), "bad node");
}

// Blob hashing is deterministic and reproducible across invocations.
#[test]
fn blob_hash_deterministic() {
    let b1 = Blob::new(b"some data");
    let b2 = Blob::new(b"some data");
    assert_eq!(b1.hash, b2.hash);
    assert_eq!(b1.get_hash(), b2.get_hash());
    let b3 = Blob::new(b"other data");
    assert_ne!(b1.hash, b3.hash);
}

#[test]
fn blob_accessors() {
    let b = Blob::new_owned(b"hello\nworld\n".to_vec());
    assert_eq!(b.get_data(), b"hello\nworld\n");
    assert_eq!(b.get_data_as_string(), "hello\nworld\n");
    let lines = b.get_data_as_lines();
    assert_eq!(lines, vec!["hello".to_string(), "world".to_string()]);
    assert!(b.is_leaf());
    assert!(b.verify_hash());
    assert!(b.verify_hash_recursive());
    assert!(b.verify_hash_recursive_with(&b.hash));
    assert!(!b.verify_hash_recursive_with(&hash(b"something else")));
}

// Reordering insertion does not change a tree's hash.
#[test]
fn tree_hash_insertion_order_invariant() {
    let t1 = tree_of(vec![
        ("a", FsObject::Blob(Blob::new(b"1"))),
        ("b", FsObject::Blob(Blob::new(b"2"))),
        ("c", FsObject::Blob(Blob::new(b"3"))),
    ]);
    let t2 = tree_of(vec![
        ("c", FsObject::Blob(Blob::new(b"3"))),
        ("a", FsObject::Blob(Blob::new(b"1"))),
        ("b", FsObject::Blob(Blob::new(b"2"))),
    ]);
    assert_eq!(t1.hash, t2.hash);
    assert_eq!(t1.listings[0].0, "a");
    assert_eq!(t1.listings[1].0, "b");
    assert_eq!(t1.listings[2].0, "c");
}

// A tree's hash is the digest of its children's hashes concatenated in
// name order.
#[test]
fn tree_hash_exact_value() {
    let ba = Blob::new(b"1");
    let bb = Blob::new(b"2");
    let t = tree_of(vec![
        ("b", FsObject::Blob(Blob::new(b"2"))),
        ("a", FsObject::Blob(Blob::new(b"1"))),
    ]);
    let mut concatenated = ba.hash.clone();
    concatenated.extend_from_slice(&bb.hash);
    assert_eq!(t.hash, sha2::Sha256::digest(&concatenated).to_vec());
    assert!(t.verify_hash());
    assert!(t.verify_hash_recursive());
    assert!(!t.is_leaf());
    assert_eq!(t.get_child_hashes(), vec![ba.hash.clone(), bb.hash.clone()]);
}

// A commit's hash covers tree hash, parent (or zeros), author, message
// and timestamp, little-endian seconds.
#[test]
fn commit_hash_exact_value() {
    let t = tree_of(vec![("a", FsObject::Blob(Blob::new(b"x")))]);
    let tree_hash = t.hash.clone();
    let c = Commit::new(t, None, "alice".to_string(), "first".to_string(), 42);
    let mut preimage = tree_hash.clone();
    preimage.extend_from_slice(&[0u8; 32]);
    preimage.extend_from_slice(b"alice");
    preimage.extend_from_slice(b"first");
    preimage.extend_from_slice(&42u64.to_le_bytes());
    assert_eq!(c.hash, sha2::Sha256::digest(&preimage).to_vec());
    assert!(c.verify_hash());
    assert!(c.verify_hash_recursive());
    assert!(!c.is_leaf());
    assert_eq!(c.get_child_hashes(), vec![tree_hash]);

    let t2 = tree_of(vec![("a", FsObject::Blob(Blob::new(b"x")))]);
    let parent_hash = c.hash.clone();
    let c2 = Commit::new(
        t2,
        Some(parent_hash.clone()),
        "bob".to_string(),
        "second".to_string(),
        43,
    );
    let mut preimage2 = c2.tree.hash.clone();
    preimage2.extend_from_slice(&parent_hash);
    preimage2.extend_from_slice(b"bob");
    preimage2.extend_from_slice(b"second");
    preimage2.extend_from_slice(&43u64.to_le_bytes());
    assert_eq!(c2.hash, sha2::Sha256::digest(&preimage2).to_vec());
}

// Tampering with a child's bytes while leaving the parent's recorded
// hash unchanged makes the recursive verification fail on the parent;
// the cheap per-level check still passes because the child's recorded
// hash was also left unchanged.
#[test]
fn corruption_detected_by_recursive_verification() {
    let mut t = tree_of(vec![
        ("a", FsObject::Blob(Blob::new(b"good"))),
        ("b", FsObject::Blob(Blob::new(b"data"))),
    ]);
    assert!(t.verify_hash_recursive());
    match &mut t.listings[0].1 {
        FsObject::Blob(b) => {
            b.data = b"evil".to_vec();
        },
        _ => panic!("expected a blob"),
    }
    assert!(t.verify_hash());
    assert!(!t.verify_hash_recursive());
    match &t.listings[0].1 {
        FsObject::Blob(b) => {
            assert!(!b.verify_hash());
        },
        _ => panic!("expected a blob"),
    }
}

#[test]
fn hash_identity_is_shared_by_objects_and_stubs() {
    let b = Blob::new(b"hello");
    assert_eq!(b.get_hash_bytes(), b.hash);
    assert_eq!(b.get_hash_str(), hash_to_hex_string(&b.hash));

    let stub = BlobStub::from_blob(&b);
    assert_eq!(stub.hashstr, b.get_hash_str());
    assert_eq!(stub.get_hash_bytes(), b.hash);
    assert_eq!(stub.get_hash_str(), b.get_hash_str());

    let t = tree_of(vec![("hello", FsObject::Blob(Blob::new(b"hello")))]);
    let tstub = TreeStub::from_tree(&t);
    assert_eq!(tstub.hashstr, hash_to_hex_string(&t.hash));
    assert_eq!(tstub.listings.len(), 1);
    assert_eq!(tstub.listings[0].0, "hello");
    assert_eq!(tstub.listings[0].1 .0, FsObjectType::Blob);
    assert_eq!(tstub.listings[0].1 .1, hash_to_hex_string(&b.hash));
    assert_eq!(tstub.get_hash_bytes(), t.hash);

    let tree_hash = t.hash.clone();
    let c = Commit::new(t, None, "alice".to_string(), "msg".to_string(), 7);
    let cstub = CommitStub::from_commit(&c);
    assert_eq!(cstub.hashstr, hash_to_hex_string(&c.hash));
    assert_eq!(cstub.tree_hashstr, hash_to_hex_string(&tree_hash));
    assert_eq!(cstub.parent_hashstr, None);
    assert_eq!(cstub.author, "alice");
    assert_eq!(cstub.message, "msg");
    assert_eq!(cstub.timestamp, 7);
    assert_eq!(cstub.get_hash_bytes(), c.hash);
}

#[test]
fn nested_tree_hashing() {
    let inner = tree_of(vec![("leaf", FsObject::Blob(Blob::new(b"L")))]);
    let inner_hash = inner.hash.clone();
    let outer = tree_of(vec![
        ("dir", FsObject::Tree(inner)),
        ("top", FsObject::Blob(Blob::new(b"T"))),
    ]);
    assert!(outer.verify_hash_recursive());
    assert!(outer.verify_hash_recursive_with(&outer.hash));
    assert!(!outer.verify_hash_recursive_with(&inner_hash));
    assert_eq!(outer.compute_hash(), outer.hash);
    assert_eq!(outer.compute_hash_recursive(), outer.hash);
}
