//! Content-addressed, Merkle-hashed object store with a structural diff
//! engine for filesystem snapshots.
//!
//! Objects (blobs, trees, commits) are identified by the digest of their
//! content; equal content is stored once.  The diff engine compares two
//! snapshots by hash, pruning unchanged subtrees, and folds chains of
//! incremental snapshots back to their ancestor.
//!
//! The store is the index of everything durable: objects are reached by
//! hash, and a head or tag is carried as a [`HeadRefStub`] naming a
//! commit by its hex hash.

mod diff;
mod hashing;
mod merkle;
mod records;
mod store;
mod stubs;
mod util;
mod vc;

pub use diff::{
    diff_fs_items, diff_text_lines, tree_to_fs_item, DiffNode, DiffNodeFsItem, DiffNodeTextLines,
};
pub use hashing::{
    combine_hashes, hash, hash_dyn, hash_lines, hash_lines_dyn, hash_sha256, hash_to_hex_string,
    hex_string_to_hash, hex_string_to_hash_vec, select_hasher, DigestAlg,
};
pub use merkle::{MerkleError, VcError};
pub use records::{encode_commit_record, encode_tree_listing};
pub use store::ObjectStore;
pub use stubs::{
    BlobStub, CommitStub, FsObjectStub, FsObjectType, HeadRefStub, TreeStub, VcObjectStub,
};
pub use util::split_lines;
pub use vc::{Blob, Commit, FsObject, Name, Tree, VcHashId, VcObject};
