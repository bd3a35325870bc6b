//! Stubs: hash-only or shallow placeholders for blobs, trees and commits.
//!
//! A stub carries the hex-encoded hash of the object it stands in for —
//! for a tree also the shallow name → (kind, hash) listing — and lets a
//! caller reference an object without materialising it.

use vstd::prelude::*;

use crate::hashing::{
    hash_to_hex_string, hex_digit_char, hex_of, hex_string_to_hash, hex_to_bytes, hex_val,
    is_lower_hex_digit, is_lower_hex_str, lemma_hex_round_trip,
};
use crate::vc::{Blob, Commit, FsObject, Name, Tree, VcHashId};

verus! {

/// The kind of object a tree listing entry refers to.
#[derive(Debug, PartialEq, Eq, Structural, Clone, Copy)]
pub enum FsObjectType {
    Blob,
    Tree,
}

/// Whether a string is the lowercase hex encoding of a full content hash.
pub open spec fn hashstr_wf(s: Seq<char>) -> bool {
    is_lower_hex_str(s) && s.len() == 64
}

/// A hash-only placeholder for a blob.
#[derive(Debug, PartialEq, Clone)]
pub struct BlobStub {
    pub hashstr: String,
}

/// A shallow placeholder for a tree: its own hash and the immediate
/// children's names, kinds and hashes, nothing deeper.
#[derive(Debug, PartialEq, Clone)]
pub struct TreeStub {
    pub listings: Vec<(Name, (FsObjectType, String))>,
    pub hashstr: String,
}

/// A placeholder for a commit: hashes and metadata, no tree payload.
#[derive(Debug, PartialEq, Clone)]
pub struct CommitStub {
    pub tree_hashstr: String,
    pub hashstr: String,
    pub parent_hashstr: Option<String>,
    pub author: String,
    pub message: String,
    pub timestamp: u64,
}

/// A placeholder for a filesystem object.
#[derive(Debug, PartialEq, Clone)]
pub enum FsObjectStub {
    BlobStub(BlobStub),
    TreeStub(TreeStub),
}

/// A placeholder for any durable object.
#[derive(Debug, PartialEq, Clone)]
pub enum VcObjectStub {
    FsObjectStub(FsObjectStub),
    CommitStub(CommitStub),
}

/// A reference to where history points: a tag or head by name, or a
/// commit by hex hash.
#[derive(Debug, PartialEq, Clone)]
pub enum HeadRefStub {
    Tag(Name),
    Head(Name),
    Commit(String),
}

impl BlobStub {
    pub open spec fn wf(&self) -> bool {
        hashstr_wf(self.hashstr@)
    }

    pub fn from_blob(blob: &Blob) -> (r: Self)
        ensures
            r.hashstr@ == hex_of(blob.hash@),
            blob.hash@.len() == 32 ==> r.wf(),
    {
        proof {
            lemma_hex_round_trip(blob.hash@);
        }
        BlobStub { hashstr: hash_to_hex_string(blob.hash.as_slice()) }
    }
}

impl TreeStub {
    pub open spec fn wf(&self) -> bool {
        &&& hashstr_wf(self.hashstr@)
        &&& forall|i: int|
            0 <= i < self.listings@.len() ==> hashstr_wf(#[trigger] self.listings@[i].1.1@)
    }

    /// The shallow listing of a tree: each child reduced to its name,
    /// kind and hex hash.
    pub fn from_tree(tree: &Tree) -> (r: Self)
        ensures
            r.hashstr@ == hex_of(tree.hash@),
            r.listings@.len() == tree.listings@.len(),
            forall|i: int|
                0 <= i < tree.listings@.len() ==> {
                    &&& (#[trigger] r.listings@[i]).0@ == tree.listings@[i].0@
                    &&& r.listings@[i].1.0 == (match tree.listings@[i].1 {
                        FsObject::Blob(_) => FsObjectType::Blob,
                        FsObject::Tree(_) => FsObjectType::Tree,
                    })
                    &&& r.listings@[i].1.1@ == hex_of(tree.listings@[i].1.hash_model())
                },
            tree.hash@.len() == 32 ==> hashstr_wf(r.hashstr@),
    {
        let mut listings: Vec<(Name, (FsObjectType, String))> = Vec::new();
        let n = tree.listings.len();
        for i in 0..n
            invariant
                n == tree.listings@.len(),
                listings@.len() == i,
                forall|j: int|
                    0 <= j < i ==> {
                        &&& (#[trigger] listings@[j]).0@ == tree.listings@[j].0@
                        &&& listings@[j].1.0 == (match tree.listings@[j].1 {
                            FsObject::Blob(_) => FsObjectType::Blob,
                            FsObject::Tree(_) => FsObjectType::Tree,
                        })
                        &&& listings@[j].1.1@ == hex_of(tree.listings@[j].1.hash_model())
                    },
        {
            let name = tree.listings[i].0.clone();
            let (kind, hashstr) = match &tree.listings[i].1 {
                FsObject::Blob(b) => (FsObjectType::Blob, hash_to_hex_string(b.hash.as_slice())),
                FsObject::Tree(t) => (FsObjectType::Tree, hash_to_hex_string(t.hash.as_slice())),
            };
            listings.push((name, (kind, hashstr)));
        }
        proof {
            lemma_hex_round_trip(tree.hash@);
        }
        TreeStub { listings, hashstr: hash_to_hex_string(tree.hash.as_slice()) }
    }
}

impl CommitStub {
    pub open spec fn wf(&self) -> bool {
        &&& hashstr_wf(self.hashstr@)
        &&& hashstr_wf(self.tree_hashstr@)
        &&& match self.parent_hashstr {
            Some(p) => hashstr_wf(p@),
            None => true,
        }
    }

    /// The record of a commit: every hash hex-encoded, metadata copied.
    pub fn from_commit(commit: &Commit) -> (r: Self)
        ensures
            r.hashstr@ == hex_of(commit.hash@),
            r.tree_hashstr@ == hex_of(commit.tree.hash@),
            (match (r.parent_hashstr, commit.parent) {
                (Some(p), Some(h)) => p@ == hex_of(h@),
                (None, None) => true,
                _ => false,
            }),
            r.author@ == commit.author@,
            r.message@ == commit.message@,
            r.timestamp == commit.timestamp,
    {
        let parent_hashstr = match &commit.parent {
            Some(p) => Some(hash_to_hex_string(p.as_slice())),
            None => None,
        };
        CommitStub {
            tree_hashstr: hash_to_hex_string(commit.tree.hash.as_slice()),
            hashstr: hash_to_hex_string(commit.hash.as_slice()),
            parent_hashstr,
            author: commit.author.clone(),
            message: commit.message.clone(),
            timestamp: commit.timestamp,
        }
    }
}

impl VcHashId for BlobStub {
    open spec fn id_wf(&self) -> bool {
        self.wf()
    }

    open spec fn id_hash(&self) -> Seq<u8> {
        hex_to_bytes(self.hashstr@)
    }

    fn get_hash_bytes(&self) -> (r: Vec<u8>)
        ensures
            r@ == self.id_hash(),
    {
        match hex_string_to_hash(self.hashstr.as_str()) {
            Ok(v) => v,
            Err(_) => vstd::pervasive::unreached(),
        }
    }

    fn get_hash_str(&self) -> (r: String)
        ensures
            r@ == hex_of(self.id_hash()),
    {
        proof {
            lemma_hex_encode_decode(self.hashstr@);
        }
        self.hashstr.clone()
    }
}

impl VcHashId for TreeStub {
    open spec fn id_wf(&self) -> bool {
        self.wf()
    }

    open spec fn id_hash(&self) -> Seq<u8> {
        hex_to_bytes(self.hashstr@)
    }

    fn get_hash_bytes(&self) -> (r: Vec<u8>)
        ensures
            r@ == self.id_hash(),
    {
        match hex_string_to_hash(self.hashstr.as_str()) {
            Ok(v) => v,
            Err(_) => vstd::pervasive::unreached(),
        }
    }

    fn get_hash_str(&self) -> (r: String)
        ensures
            r@ == hex_of(self.id_hash()),
    {
        proof {
            lemma_hex_encode_decode(self.hashstr@);
        }
        self.hashstr.clone()
    }
}

impl VcHashId for CommitStub {
    open spec fn id_wf(&self) -> bool {
        self.wf()
    }

    open spec fn id_hash(&self) -> Seq<u8> {
        hex_to_bytes(self.hashstr@)
    }

    fn get_hash_bytes(&self) -> (r: Vec<u8>)
        ensures
            r@ == self.id_hash(),
    {
        match hex_string_to_hash(self.hashstr.as_str()) {
            Ok(v) => v,
            Err(_) => vstd::pervasive::unreached(),
        }
    }

    fn get_hash_str(&self) -> (r: String)
        ensures
            r@ == hex_of(self.id_hash()),
    {
        proof {
            lemma_hex_encode_decode(self.hashstr@);
        }
        self.hashstr.clone()
    }
}

impl FsObjectStub {
    pub open spec fn wf(&self) -> bool {
        match self {
            FsObjectStub::BlobStub(b) => b.wf(),
            FsObjectStub::TreeStub(t) => t.wf(),
        }
    }
}

impl VcHashId for FsObjectStub {
    open spec fn id_wf(&self) -> bool {
        self.wf()
    }

    open spec fn id_hash(&self) -> Seq<u8> {
        match self {
            FsObjectStub::BlobStub(b) => b.id_hash(),
            FsObjectStub::TreeStub(t) => t.id_hash(),
        }
    }

    fn get_hash_bytes(&self) -> (r: Vec<u8>)
        ensures
            r@ == self.id_hash(),
    {
        match self {
            FsObjectStub::BlobStub(b) => b.get_hash_bytes(),
            FsObjectStub::TreeStub(t) => t.get_hash_bytes(),
        }
    }

    fn get_hash_str(&self) -> (r: String)
        ensures
            r@ == hex_of(self.id_hash()),
    {
        match self {
            FsObjectStub::BlobStub(b) => b.get_hash_str(),
            FsObjectStub::TreeStub(t) => t.get_hash_str(),
        }
    }
}

impl VcObjectStub {
    pub open spec fn wf(&self) -> bool {
        match self {
            VcObjectStub::FsObjectStub(f) => f.wf(),
            VcObjectStub::CommitStub(c) => c.wf(),
        }
    }
}

impl VcHashId for VcObjectStub {
    open spec fn id_wf(&self) -> bool {
        self.wf()
    }

    open spec fn id_hash(&self) -> Seq<u8> {
        match self {
            VcObjectStub::FsObjectStub(f) => f.id_hash(),
            VcObjectStub::CommitStub(c) => c.id_hash(),
        }
    }

    fn get_hash_bytes(&self) -> (r: Vec<u8>)
        ensures
            r@ == self.id_hash(),
    {
        match self {
            VcObjectStub::FsObjectStub(f) => f.get_hash_bytes(),
            VcObjectStub::CommitStub(c) => c.get_hash_bytes(),
        }
    }

    fn get_hash_str(&self) -> (r: String)
        ensures
            r@ == hex_of(self.id_hash()),
    {
        match self {
            VcObjectStub::FsObjectStub(f) => f.get_hash_str(),
            VcObjectStub::CommitStub(c) => c.get_hash_str(),
        }
    }
}

/// Encoding the decoded bytes of a well-formed hex string gives the
/// string back.
pub proof fn lemma_hex_encode_decode(s: Seq<char>)
    requires
        is_lower_hex_str(s),
    ensures
        hex_of(hex_to_bytes(s)) == s,
    decreases s.len(),
{
    if s.len() == 0 {
        assert(hex_to_bytes(s) =~= Seq::<u8>::empty());
        assert(hex_of(Seq::<u8>::empty()) =~= Seq::<char>::empty());
        assert(s =~= Seq::<char>::empty());
    } else {
        let rest = s.skip(2);
        assert(is_lower_hex_digit(s[0]) && is_lower_hex_digit(s[1]));
        assert forall|i: int| 0 <= i < rest.len() implies is_lower_hex_digit(
            #[trigger] rest[i],
        ) by {
            assert(rest[i] == s[i + 2]);
        }
        lemma_hex_encode_decode(rest);
        let b = (16 * hex_val(s[0]) + hex_val(s[1])) as u8;
        let dec = hex_to_bytes(s);
        assert(dec == seq![b] + hex_to_bytes(rest));
        assert(dec.first() == b);
        assert(dec.drop_first() =~= hex_to_bytes(rest));
        assert(b / 16 == hex_val(s[0]) && b % 16 == hex_val(s[1]));
        assert(hex_digit_char(b / 16) == s[0] && hex_digit_char(b % 16) == s[1]);
        assert(hex_of(dec) =~= s);
    }
}

} // verus!
