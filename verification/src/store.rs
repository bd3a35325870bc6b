//! The object store: persists objects keyed by their content hash and
//! guarantees at most one physical copy per unique content.
//!
//! The store is a map from hash to payload.  `put` is idempotent: writing
//! content that is already present changes nothing.  `get` recomputes the
//! payload's hash and refuses corrupted records; `resolve` materialises a
//! whole tree, verifying every hash on the way.

use vstd::prelude::*;

use crate::hashing::{combine_hashes, combine_of, hash, hash_to_hex_string, hex_of, sha256_of};
use crate::merkle::VcError;
use crate::records::{
    commit_record, encode_commit_record, encode_tree_listing, entry_hashes, listing_payload,
    parse_commit_record, parse_commit_record_spec, parse_listing_spec, parse_tree_listing,
    tree_entries, CommitModel, ListingEntry,
};
use crate::stubs::{BlobStub, CommitStub, FsObjectStub, FsObjectType, TreeStub};
use crate::util::bytes_eq;
use crate::vc::{
    clone_hash, commit_preimage, commit_preimage_exec, lemma_lex_lt_transitive, lex_lt,
    lex_lt_exec, sorted_strict, Blob, Commit, FsObject, Name, Tree, VcHashId, VcObject,
};

verus! {

/// The map a store stands for, from hash to payload.
pub open spec fn store_map(entries: Seq<(Vec<u8>, Vec<u8>)>) -> Map<Seq<u8>, Seq<u8>>
    decreases entries.len(),
{
    if entries.len() == 0 {
        Map::empty()
    } else {
        store_map(entries.drop_last()).insert(entries.last().0@, entries.last().1@)
    }
}

/// A content-addressed object store, in memory: payloads keyed by hash.
pub struct ObjectStore {
    entries: Vec<(Vec<u8>, Vec<u8>)>,
}

impl View for ObjectStore {
    type V = Map<Seq<u8>, Seq<u8>>;

    closed spec fn view(&self) -> Map<Seq<u8>, Seq<u8>> {
        store_map(self.entries@)
    }
}

proof fn lemma_store_map_contains(entries: Seq<(Vec<u8>, Vec<u8>)>, k: Seq<u8>)
    ensures
        store_map(entries).contains_key(k) <==> exists|i: int|
            0 <= i < entries.len() && (#[trigger] entries[i]).0@ == k,
    decreases entries.len(),
{
    if entries.len() > 0 {
        lemma_store_map_contains(entries.drop_last(), k);
        if store_map(entries).contains_key(k) {
            if entries.last().0@ == k {
                assert(entries[entries.len() - 1].0@ == k);
            } else {
                let i = choose|i: int|
                    0 <= i < entries.drop_last().len() && (#[trigger] entries.drop_last()[i]).0@
                        == k;
                assert(entries[i].0@ == k);
            }
        }
        if exists|i: int| 0 <= i < entries.len() && (#[trigger] entries[i]).0@ == k {
            let i = choose|i: int| 0 <= i < entries.len() && (#[trigger] entries[i]).0@ == k;
            if i < entries.len() - 1 {
                assert(entries.drop_last()[i].0@ == k);
            }
        }
    }
}

proof fn lemma_store_map_value(entries: Seq<(Vec<u8>, Vec<u8>)>, i: int)
    requires
        forall|a: int, b: int|
            0 <= a < b < entries.len() ==> (#[trigger] entries[a]).0@ != (
            #[trigger] entries[b]).0@,
        0 <= i < entries.len(),
    ensures
        store_map(entries).contains_key(entries[i].0@),
        store_map(entries)[entries[i].0@] == entries[i].1@,
    decreases entries.len(),
{
    if i == entries.len() - 1 {
    } else {
        assert(entries[i].0@ != entries.last().0@);
        assert forall|a: int, b: int|
            0 <= a < b < entries.drop_last().len() implies (
        #[trigger] entries.drop_last()[a]).0@ != (#[trigger] entries.drop_last()[b]).0@ by {
            assert(entries.drop_last()[a] == entries[a] && entries.drop_last()[b] == entries[b]);
        }
        assert(entries.drop_last()[i] == entries[i]);
        lemma_store_map_value(entries.drop_last(), i);
    }
}

impl ObjectStore {
    /// Keys are unique: each hash is stored at most once.
    pub closed spec fn wf(&self) -> bool {
        forall|i: int, j: int|
            0 <= i < j < self.entries@.len() ==> (#[trigger] self.entries@[i]).0@ != (
            #[trigger] self.entries@[j]).0@
    }

    /// An empty store.
    pub fn new() -> (r: Self)
        ensures
            r@ == Map::<Seq<u8>, Seq<u8>>::empty(),
            r.wf(),
    {
        ObjectStore { entries: Vec::new() }
    }

    /// Whether a record is stored under the given hash.
    pub fn contains(&self, h: &[u8]) -> (r: bool)
        ensures
            r == self@.contains_key(h@),
    {
        proof {
            lemma_store_map_contains(self.entries@, h@);
        }
        let n = self.entries.len();
        for i in 0..n
            invariant
                n == self.entries@.len(),
                forall|j: int| 0 <= j < i ==> (#[trigger] self.entries@[j]).0@ != h@,
        {
            if bytes_eq(self.entries[i].0.as_slice(), h) {
                proof {
                    lemma_store_map_contains(self.entries@, h@);
                    assert(exists|j: int|
                        0 <= j < self.entries@.len() && (#[trigger] self.entries@[j]).0@ == h@) by {
                        assert((self.entries@[i as int]).0@ == h@);
                    }
                }
                return true;
            }
        }
        false
    }

    /// The raw payload stored under a hash, if any.
    pub fn get_raw(&self, h: &[u8]) -> (r: Option<&Vec<u8>>)
        requires
            self.wf(),
        ensures
            match r {
                Some(p) => self@.contains_key(h@) && p@ == self@[h@],
                None => !self@.contains_key(h@),
            },
    {
        proof {
            lemma_store_map_contains(self.entries@, h@);
        }
        let n = self.entries.len();
        for i in 0..n
            invariant
                n == self.entries@.len(),
                self.wf(),
                forall|j: int| 0 <= j < i ==> (#[trigger] self.entries@[j]).0@ != h@,
        {
            if bytes_eq(self.entries[i].0.as_slice(), h) {
                proof {
                    lemma_store_map_contains(self.entries@, h@);
                    lemma_store_map_value(self.entries@, i as int);
                }
                return Some(&self.entries[i].1);
            }
        }
        None
    }

    /// Stores a payload under a hash; a no-op if the hash is present.
    pub fn put_raw(&mut self, h: Vec<u8>, payload: Vec<u8>)
        requires
            old(self).wf(),
        ensures
            final(self).wf(),
            final(self)@ == put_spec(old(self)@, h@, payload@),
    {
        if self.contains(h.as_slice()) {
            return ;
        }
        proof {
            lemma_store_map_contains(self.entries@, h@);
        }
        let ghost pre = self.entries@;
        self.entries.push((h, payload));
        proof {
            assert(self.entries@.drop_last() =~= pre);
            assert forall|i: int, j: int|
                0 <= i < j < self.entries@.len() implies (#[trigger] self.entries@[i]).0@ != (
            #[trigger] self.entries@[j]).0@ by {
                if j == self.entries@.len() - 1 {
                    assert(self.entries@[i] == pre[i]);
                }
            }
        }
    }
}

/// What a store holds after a put: unchanged if the hash was present,
/// else extended by the record.
pub open spec fn put_spec(m: Map<Seq<u8>, Seq<u8>>, k: Seq<u8>, v: Seq<u8>) -> Map<
    Seq<u8>,
    Seq<u8>,
> {
    if m.contains_key(k) {
        m
    } else {
        m.insert(k, v)
    }
}

/// What looking a blob up yields: its payload if the stored bytes still
/// hash to the key, `NotFound` or `Corruption` otherwise.
pub open spec fn blob_lookup(m: Map<Seq<u8>, Seq<u8>>, h: Seq<u8>) -> Result<Seq<u8>, VcError> {
    if !m.contains_key(h) {
        Err(VcError::NotFound)
    } else if sha256_of(m[h]) == h {
        Ok(m[h])
    } else {
        Err(VcError::Corruption)
    }
}

/// What looking a tree up yields: its parsed listing if the payload
/// parses and the combined child hashes still give the key.
pub open spec fn tree_lookup(m: Map<Seq<u8>, Seq<u8>>, h: Seq<u8>) -> Result<
    Seq<ListingEntry>,
    VcError,
> {
    if !m.contains_key(h) {
        Err(VcError::NotFound)
    } else {
        match parse_listing_spec(m[h]) {
            None => Err(VcError::ParseError),
            Some(entries) => if combine_of(entry_hashes(entries)) == h {
                Ok(entries)
            } else {
                Err(VcError::Corruption)
            },
        }
    }
}

/// What looking a commit up yields: its parsed record if the payload
/// parses and the recomputed commit hash still gives the key.
pub open spec fn commit_lookup(m: Map<Seq<u8>, Seq<u8>>, h: Seq<u8>) -> Result<
    CommitModel,
    VcError,
> {
    if !m.contains_key(h) {
        Err(VcError::NotFound)
    } else {
        match parse_commit_record_spec(m[h]) {
            None => Err(VcError::ParseError),
            Some(cm) => if sha256_of(commit_preimage(cm.0, cm.1, cm.2, cm.3, cm.4)) == h {
                Ok(cm)
            } else {
                Err(VcError::Corruption)
            },
        }
    }
}

/// Whether listing entries stand in canonical order: strictly sorted by
/// name.
pub open spec fn entries_name_sorted(entries: Seq<ListingEntry>) -> bool {
    forall|i: int, j: int|
        0 <= i < j < entries.len() ==> lex_lt(
            (#[trigger] entries[i]).0,
            (#[trigger] entries[j]).0,
        )
}

/// Whether a whole tree can be materialised from the store within a
/// depth bound: its listing is present, parses, matches its hash, stands
/// in canonical order, and every child is itself present and sound.
pub open spec fn tree_resolvable(m: Map<Seq<u8>, Seq<u8>>, h: Seq<u8>, fuel: nat) -> bool
    decreases fuel,
{
    &&& fuel >= 1
    &&& match tree_lookup(m, h) {
        Ok(entries) => {
            &&& entries_name_sorted(entries)
            &&& forall|i: int|
                0 <= i < entries.len() ==> (match (#[trigger] entries[i]).1 {
                    FsObjectType::Blob => blob_lookup(m, entries[i].2) is Ok,
                    FsObjectType::Tree => tree_resolvable(m, entries[i].2, (fuel - 1) as nat),
                })
        },
        Err(_) => false,
    }
}

impl ObjectStore {
    /// Persists a blob: its raw payload keyed by its hash.
    pub fn put_blob(&mut self, b: &Blob) -> (r: Vec<u8>)
        requires
            old(self).wf(),
            b.wf(),
        ensures
            final(self).wf(),
            final(self)@ == put_spec(old(self)@, b.hash@, b.data@),
            r@ == b.hash@,
    {
        self.put_raw(clone_hash(&b.hash), clone_hash(&b.data));
        clone_hash(&b.hash)
    }

    /// Persists a tree: its listing keyed by its hash.  The children are
    /// not stored by this call; each object is put on its own.
    pub fn put_tree(&mut self, t: &Tree) -> (r: Vec<u8>)
        requires
            old(self).wf(),
        ensures
            final(self).wf(),
            final(self)@ == put_spec(
                old(self)@,
                t.hash@,
                listing_payload(tree_entries(t.listings@)),
            ),
            r@ == t.hash@,
    {
        let payload = encode_tree_listing(t);
        self.put_raw(clone_hash(&t.hash), payload);
        clone_hash(&t.hash)
    }

    /// Persists a commit: its record keyed by its hash.
    pub fn put_commit(&mut self, c: &Commit) -> (r: Vec<u8>)
        requires
            old(self).wf(),
        ensures
            final(self).wf(),
            final(self)@ == put_spec(
                old(self)@,
                c.hash@,
                commit_record(c.tree.hash@, c.parent_model(), c.author@, c.message@, c.timestamp),
            ),
            r@ == c.hash@,
    {
        let payload = encode_commit_record(c);
        self.put_raw(clone_hash(&c.hash), payload);
        clone_hash(&c.hash)
    }

    /// Persists any content-addressed object: a no-op when its hash is
    /// already present, so duplicate content is never double-stored.
    pub fn put(&mut self, obj: &VcObject) -> (r: Vec<u8>)
        requires
            old(self).wf(),
            obj.wf(),
        ensures
            final(self).wf(),
            final(self)@ == (match obj {
                VcObject::FsObject(FsObject::Blob(b)) => put_spec(old(self)@, b.hash@, b.data@),
                VcObject::FsObject(FsObject::Tree(t)) => put_spec(
                    old(self)@,
                    t.hash@,
                    listing_payload(tree_entries(t.listings@)),
                ),
                VcObject::Commit(c) => put_spec(
                    old(self)@,
                    c.hash@,
                    commit_record(
                        c.tree.hash@,
                        c.parent_model(),
                        c.author@,
                        c.message@,
                        c.timestamp,
                    ),
                ),
            }),
            r@ == obj.hash_model(),
    {
        match obj {
            VcObject::FsObject(FsObject::Blob(b)) => self.put_blob(b),
            VcObject::FsObject(FsObject::Tree(t)) => self.put_tree(t),
            VcObject::Commit(c) => self.put_commit(c),
        }
    }

    /// Loads a blob by hash, refusing a payload that no longer hashes to
    /// its key.
    pub fn get_blob(&self, h: &[u8]) -> (r: Result<Blob, VcError>)
        requires
            self.wf(),
        ensures
            match (r, blob_lookup(self@, h@)) {
                (Ok(b), Ok(d)) => b.data@ == d && b.hash@ == h@ && b.wf(),
                (Err(e1), Err(e2)) => e1 == e2,
                _ => false,
            },
    {
        let payload = match self.get_raw(h) {
            Some(p) => p,
            None => {
                return Err(VcError::NotFound);
            },
        };
        let recomputed = hash(payload.as_slice());
        if !bytes_eq(recomputed.as_slice(), h) {
            return Err(VcError::Corruption);
        }
        Ok(Blob { data: clone_hash(payload), hash: vstd::slice::slice_to_vec(h) })
    }

    /// Loads a tree's shallow listing by hash, refusing a payload that
    /// does not parse or whose combined child hashes no longer give the
    /// key.
    pub fn get_tree_stub(&self, h: &[u8]) -> (r: Result<TreeStub, VcError>)
        requires
            self.wf(),
        ensures
            match (r, tree_lookup(self@, h@)) {
                (Ok(stub), Ok(entries)) => {
                    &&& stub.hashstr@ == hex_of(h@)
                    &&& stub.wf()
                    &&& stub.listings@.len() == entries.len()
                    &&& forall|i: int|
                        0 <= i < entries.len() ==> {
                            &&& (#[trigger] stub.listings@[i]).0@ == entries[i].0
                            &&& stub.listings@[i].1.0 == entries[i].1
                            &&& stub.listings@[i].1.1@ == hex_of(entries[i].2)
                        }
                },
                (Err(e1), Err(e2)) => e1 == e2,
                _ => false,
            },
    {
        let payload = match self.get_raw(h) {
            Some(p) => p,
            None => {
                return Err(VcError::NotFound);
            },
        };
        let entries = match parse_tree_listing(payload.as_slice()) {
            Ok(v) => v,
            Err(e) => {
                return Err(VcError::ParseError);
            },
        };
        let ghost model = parse_listing_spec(self@[h@])->Some_0;
        proof {
            crate::records::lemma_parse_listing_hash_lens(self@[h@]);
        }
        // recompute the combined hash over the parsed child hashes
        let mut hs: Vec<Vec<u8>> = Vec::new();
        let n = entries.len();
        for i in 0..n
            invariant
                n == entries@.len(),
                model.len() == entries@.len(),
                forall|t: int|
                    0 <= t < n ==> {
                        &&& (#[trigger] entries@[t]).0@ == model[t].0
                        &&& entries@[t].1 == model[t].1
                        &&& entries@[t].2@ == model[t].2
                    },
                hs.deep_view() == entry_hashes(model).subrange(0, i as int),
        {
            let ghost pre_hs = hs.deep_view();
            hs.push(clone_hash(&entries[i].2));
            proof {
                assert(hs.deep_view() =~~= pre_hs.push(entries@[i as int].2@));
                assert(hs.deep_view() =~= entry_hashes(model).subrange(0, i + 1));
            }
        }
        proof {
            assert(entry_hashes(model).subrange(0, n as int) =~= entry_hashes(model));
        }
        let combined = combine_hashes(&hs);
        if !bytes_eq(combined.as_slice(), h) {
            return Err(VcError::Corruption);
        }
        // build the stub, re-encoding each hash as lowercase hex
        let mut listings: Vec<(Name, (FsObjectType, String))> = Vec::new();
        let mut entries = entries;
        let mut k: usize = 0;
        let ghost entry_seq = entries@;
        while k < n
            invariant
                n == entry_seq.len(),
                k <= n,
                entries@ == entry_seq,
                model.len() == entry_seq.len(),
                forall|t: int|
                    0 <= t < n ==> {
                        &&& (#[trigger] entry_seq[t]).0@ == model[t].0
                        &&& entry_seq[t].1 == model[t].1
                        &&& entry_seq[t].2@ == model[t].2
                        &&& model[t].2.len() == 32
                    },
                listings@.len() == k,
                forall|t: int|
                    0 <= t < k ==> {
                        &&& (#[trigger] listings@[t]).0@ == model[t].0
                        &&& listings@[t].1.0 == model[t].1
                        &&& listings@[t].1.1@ == hex_of(model[t].2)
                        &&& crate::stubs::hashstr_wf(listings@[t].1.1@)
                    },
            decreases n - k,
        {
            let name = entries[k].0.clone();
            let kind = entries[k].1;
            let hashstr = hash_to_hex_string(entries[k].2.as_slice());
            proof {
                crate::hashing::lemma_hex_round_trip(entry_seq[k as int].2@);
            }
            listings.push((name, (kind, hashstr)));
            k = k + 1;
        }
        proof {
            crate::hashing::lemma_hex_round_trip(h@);
        }
        Ok(TreeStub { listings, hashstr: hash_to_hex_string(h) })
    }

    /// Loads a commit's record by hash, refusing a payload that does not
    /// parse or whose recomputed hash no longer gives the key.
    pub fn get_commit_stub(&self, h: &[u8]) -> (r: Result<CommitStub, VcError>)
        requires
            self.wf(),
        ensures
            match (r, commit_lookup(self@, h@)) {
                (Ok(stub), Ok(cm)) => {
                    &&& stub.hashstr@ == hex_of(h@)
                    &&& stub.tree_hashstr@ == hex_of(cm.0)
                    &&& (match (stub.parent_hashstr, cm.1) {
                        (Some(p), Some(ph)) => p@ == hex_of(ph),
                        (None, None) => true,
                        _ => false,
                    })
                    &&& stub.author@ == cm.2
                    &&& stub.message@ == cm.3
                    &&& stub.timestamp == cm.4
                },
                (Err(e1), Err(e2)) => e1 == e2,
                _ => false,
            },
    {
        let payload = match self.get_raw(h) {
            Some(p) => p,
            None => {
                return Err(VcError::NotFound);
            },
        };
        let (tree_hash, parent, author, message, timestamp) = match parse_commit_record(
            payload.as_slice(),
        ) {
            Ok(v) => v,
            Err(_) => {
                return Err(VcError::ParseError);
            },
        };
        let pre = commit_preimage_exec(
            tree_hash.as_slice(),
            &parent,
            author.as_str(),
            message.as_str(),
            timestamp,
        );
        let recomputed = hash(pre.as_slice());
        if !bytes_eq(recomputed.as_slice(), h) {
            return Err(VcError::Corruption);
        }
        let parent_hashstr = match &parent {
            Some(p) => Some(hash_to_hex_string(p.as_slice())),
            None => None,
        };
        Ok(
            CommitStub {
                tree_hashstr: hash_to_hex_string(tree_hash.as_slice()),
                hashstr: hash_to_hex_string(h),
                parent_hashstr,
                author,
                message,
                timestamp,
            },
        )
    }

    /// Materialises a blob a stub stands in for.
    pub fn resolve_blob(&self, stub: &BlobStub) -> (r: Result<Blob, VcError>)
        requires
            self.wf(),
            stub.wf(),
        ensures
            match (r, blob_lookup(self@, stub.id_hash())) {
                (Ok(b), Ok(d)) => b.data@ == d && b.hash@ == stub.id_hash() && b.wf(),
                (Err(e1), Err(e2)) => e1 == e2,
                _ => false,
            },
    {
        let h = stub.get_hash_bytes();
        self.get_blob(h.as_slice())
    }

    /// Materialises a whole tree by hash: loads the listing, resolves
    /// every child recursively, and verifies each hash on the way.
    /// `fuel` bounds the depth.  Records that nest deeper than `fuel` are
    /// reported as `Corruption`, since for honest records a chain of that
    /// depth would mean a hash cycle; a caller with a deep, healthy tree
    /// simply passes a fuel at least its depth, and success is then owed
    /// whenever the whole subtree is present and sound
    /// ([`tree_resolvable`]).
    pub fn resolve_tree(&self, h: &[u8], fuel: usize) -> (r: Result<Tree, VcError>)
        requires
            self.wf(),
        ensures
            match r {
                Ok(t) => t.wf() && t.hash@ == h@,
                Err(e) => e == VcError::NotFound || e == VcError::ParseError || e
                    == VcError::Corruption,
            },
            fuel >= 1 && tree_lookup(self@, h@) is Err ==> r == Err::<Tree, VcError>(
                tree_lookup(self@, h@)->Err_0,
            ),
            tree_resolvable(self@, h@, fuel as nat) ==> r is Ok,
        decreases fuel,
    {
        if fuel == 0 {
            return Err(VcError::Corruption);
        }
        let payload = match self.get_raw(h) {
            Some(p) => p,
            None => {
                return Err(VcError::NotFound);
            },
        };
        let entries = match parse_tree_listing(payload.as_slice()) {
            Ok(v) => v,
            Err(_) => {
                return Err(VcError::ParseError);
            },
        };
        let ghost model = parse_listing_spec(self@[h@])->Some_0;
        let n = entries.len();
        // recompute the combined hash over the recorded child hashes
        let mut hs: Vec<Vec<u8>> = Vec::new();
        for i in 0..n
            invariant
                n == entries@.len(),
                hs.deep_view() == entries@.subrange(0, i as int).map_values(
                    |e: (Name, FsObjectType, Vec<u8>)| e.2@,
                ),
        {
            let ghost pre_hs = hs.deep_view();
            hs.push(clone_hash(&entries[i].2));
            proof {
                assert(hs.deep_view() =~~= pre_hs.push(entries@[i as int].2@));
                assert(hs.deep_view() =~= entries@.subrange(0, i + 1).map_values(
                    |e: (Name, FsObjectType, Vec<u8>)| e.2@,
                ));
            }
        }
        let combined = combine_hashes(&hs);
        proof {
            assert(entries@.subrange(0, n as int) =~= entries@);
            assert(hs.deep_view() =~= entry_hashes(model));
            assert(combined@ == crate::hashing::combine_of(entry_hashes(model)));
        }
        if !bytes_eq(combined.as_slice(), h) {
            return Err(VcError::Corruption);
        }
        // resolve each child, checking canonical order as we go
        let mut listings: Vec<(Name, FsObject)> = Vec::new();
        let mut k: usize = 0;
        while k < n
            invariant
                self.wf(),
                fuel >= 1,
                tree_lookup(self@, h@) == Ok::<Seq<ListingEntry>, VcError>(model),
                model.len() == n,
                forall|t: int|
                    0 <= t < n ==> {
                        &&& (#[trigger] entries@[t]).0@ == model[t].0
                        &&& entries@[t].1 == model[t].1
                        &&& entries@[t].2@ == model[t].2
                    },
                n == entries@.len(),
                k <= n,
                listings@.len() == k,
                hs.deep_view() == entries@.map_values(
                    |e: (Name, FsObjectType, Vec<u8>)| e.2@,
                ),
                forall|t: int|
                    0 <= t < k ==> {
                        &&& (#[trigger] listings@[t]).0@ == entries@[t].0@
                        &&& listings@[t].1.wf()
                        &&& listings@[t].1.hash_model() == entries@[t].2@
                    },
                sorted_strict(listings@),
            decreases n - k,
        {
            if k > 0 {
                let prev_in_order = lex_lt_exec(
                    listings[k - 1].0.as_str(),
                    entries[k].0.as_str(),
                );
                if !prev_in_order {
                    proof {
                        assert(!lex_lt(model[k - 1].0, model[k as int].0));
                        assert(!entries_name_sorted(model));
                    }
                    return Err(VcError::Corruption);
                }
            }
            let child = match &entries[k].1 {
                FsObjectType::Blob => {
                    match self.get_blob(entries[k].2.as_slice()) {
                        Ok(b) => FsObject::Blob(b),
                        Err(e) => {
                            proof {
                                assert(blob_lookup(self@, model[k as int].2) is Err);
                                assert(model[k as int].1 == FsObjectType::Blob);
                                assert(!tree_resolvable(self@, h@, fuel as nat));
                            }
                            return Err(e);
                        },
                    }
                },
                FsObjectType::Tree => {
                    match self.resolve_tree(entries[k].2.as_slice(), fuel - 1) {
                        Ok(t) => FsObject::Tree(t),
                        Err(e) => {
                            proof {
                                assert(!tree_resolvable(
                                    self@,
                                    model[k as int].2,
                                    (fuel - 1) as nat,
                                ));
                                assert(model[k as int].1 == FsObjectType::Tree);
                                assert(!tree_resolvable(self@, h@, fuel as nat));
                            }
                            return Err(e);
                        },
                    }
                },
            };
            let name = entries[k].0.clone();
            let ghost pre_listings = listings@;
            listings.push((name, child));
            proof {
                assert forall|a: int, b: int|
                    0 <= a < b < listings@.len() implies lex_lt(
                    listings@[a].0@,
                    listings@[b].0@,
                ) by {
                    if b < listings@.len() - 1 {
                        assert(listings@[a] == pre_listings[a] && listings@[b]
                            == pre_listings[b]);
                    } else {
                        assert(listings@[a] == pre_listings[a]);
                        if a < k - 1 {
                            lemma_lex_lt_transitive(
                                pre_listings[a].0@,
                                pre_listings[k - 1].0@,
                                listings@[b].0@,
                            );
                        }
                    }
                }
            }
            k = k + 1;
        }
        let tree = Tree { listings, hash: vstd::slice::slice_to_vec(h) };
        proof {
            assert(tree.child_hashes() =~= entries@.map_values(
                |e: (Name, FsObjectType, Vec<u8>)| e.2@,
            ));
        }
        Ok(tree)
    }

    /// Materialises the object a stub stands in for.  For a blob stub
    /// the outcome is exactly the blob lookup's; for a tree stub a
    /// top-level lookup failure comes back unchanged, and success is owed
    /// whenever the whole subtree is present and sound within the depth
    /// bound.
    pub fn resolve(&self, stub: &FsObjectStub, fuel: usize) -> (r: Result<FsObject, VcError>)
        requires
            self.wf(),
            stub.wf(),
        ensures
            match r {
                Ok(o) => o.wf() && o.hash_model() == stub.id_hash(),
                Err(e) => e == VcError::NotFound || e == VcError::ParseError || e
                    == VcError::Corruption,
            },
            stub is BlobStub ==> (match (r, blob_lookup(self@, stub.id_hash())) {
                (Ok(o), Ok(d)) => o is Blob && o->Blob_0.data@ == d,
                (Err(e1), Err(e2)) => e1 == e2,
                _ => false,
            }),
            stub is TreeStub && fuel >= 1 && tree_lookup(self@, stub.id_hash()) is Err ==> r
                == Err::<FsObject, VcError>(tree_lookup(self@, stub.id_hash())->Err_0),
            stub is TreeStub && tree_resolvable(self@, stub.id_hash(), fuel as nat) ==> r is Ok,
    {
        match stub {
            FsObjectStub::BlobStub(b) => {
                match self.resolve_blob(b) {
                    Ok(blob) => Ok(FsObject::Blob(blob)),
                    Err(e) => Err(e),
                }
            },
            FsObjectStub::TreeStub(t) => {
                let h = t.get_hash_bytes();
                match self.resolve_tree(h.as_slice(), fuel) {
                    Ok(tree) => Ok(FsObject::Tree(tree)),
                    Err(e) => Err(e),
                }
            },
        }
    }

    /// Materialises a commit a stub stands in for: resolves its tree and
    /// verifies the commit hash over the resolved content.  A failure to
    /// resolve the tree comes back unchanged; the commit itself is
    /// reported corrupt exactly when its recorded hash is not the digest
    /// of its own fields; and success is owed whenever the tree is
    /// present and sound within the depth bound and that digest matches.
    pub fn resolve_commit(&self, stub: &CommitStub, fuel: usize) -> (r: Result<Commit, VcError>)
        requires
            self.wf(),
            stub.wf(),
        ensures
            match r {
                Ok(c) => c.wf() && c.hash@ == stub.id_hash(),
                Err(e) => e == VcError::NotFound || e == VcError::ParseError || e
                    == VcError::Corruption,
            },
            fuel >= 1 && tree_lookup(
                self@,
                crate::hashing::hex_to_bytes(stub.tree_hashstr@),
            ) is Err ==> r == Err::<Commit, VcError>(
                tree_lookup(self@, crate::hashing::hex_to_bytes(stub.tree_hashstr@))->Err_0,
            ),
            r is Ok ==> commit_stub_digest(*stub) == stub.id_hash(),
            commit_stub_digest(*stub) != stub.id_hash() ==> r is Err,
            tree_resolvable(
                self@,
                crate::hashing::hex_to_bytes(stub.tree_hashstr@),
                fuel as nat,
            ) && commit_stub_digest(*stub) == stub.id_hash() ==> r is Ok,
    {
        let tree_hash = match crate::hashing::hex_string_to_hash(stub.tree_hashstr.as_str()) {
            Ok(v) => v,
            Err(_) => vstd::pervasive::unreached(),
        };
        let tree = match self.resolve_tree(tree_hash.as_slice(), fuel) {
            Ok(t) => t,
            Err(e) => {
                return Err(e);
            },
        };
        let parent: Option<Vec<u8>> = match &stub.parent_hashstr {
            Some(p) => match crate::hashing::hex_string_to_hash(p.as_str()) {
                Ok(v) => Some(v),
                Err(_) => vstd::pervasive::unreached(),
            },
            None => None,
        };
        let expected = match crate::hashing::hex_string_to_hash(stub.hashstr.as_str()) {
            Ok(v) => v,
            Err(_) => vstd::pervasive::unreached(),
        };
        let pre = commit_preimage_exec(
            tree.hash.as_slice(),
            &parent,
            stub.author.as_str(),
            stub.message.as_str(),
            stub.timestamp,
        );
        let recomputed = hash(pre.as_slice());
        if !bytes_eq(recomputed.as_slice(), expected.as_slice()) {
            return Err(VcError::Corruption);
        }
        let c = Commit {
            tree,
            hash: expected,
            parent,
            author: stub.author.clone(),
            message: stub.message.clone(),
            timestamp: stub.timestamp,
        };
        Ok(c)
    }
}

/// The digest a commit stub's own fields give: what the stub's recorded
/// hash must equal for the stub to be sound.
pub open spec fn commit_stub_digest(stub: CommitStub) -> Seq<u8> {
    sha256_of(
        commit_preimage(
            crate::hashing::hex_to_bytes(stub.tree_hashstr@),
            match stub.parent_hashstr {
                Some(p) => Some(crate::hashing::hex_to_bytes(p@)),
                None => None,
            },
            stub.author@,
            stub.message@,
            stub.timestamp,
        ),
    )
}

// ---------------------------------------------------------------------------
// Laws of the store.
// ---------------------------------------------------------------------------

/// Law: a blob just put can be got back unchanged.  If the store did not
/// already hold different bytes under the blob's hash, looking the hash
/// up after the put yields exactly the blob's payload.
pub proof fn lemma_store_blob_round_trip(m: Map<Seq<u8>, Seq<u8>>, b: Blob)
    requires
        b.wf(),
        m.contains_key(b.hash@) ==> m[b.hash@] == b.data@,
    ensures
        blob_lookup(put_spec(m, b.hash@, b.data@), b.hash@) == Ok::<Seq<u8>, VcError>(
            b.data@,
        ),
{
}

/// Law: a tree just put can be got back unchanged.  If no child name
/// holds a line feed and the store did not already hold different bytes
/// under the tree's hash, looking the hash up after the put parses back
/// to exactly the tree's listing.
pub proof fn lemma_store_tree_round_trip(m: Map<Seq<u8>, Seq<u8>>, t: Tree)
    requires
        t.wf(),
        forall|i: int|
            0 <= i < t.listings@.len() ==> crate::records::no_lf_chars(
                (#[trigger] t.listings@[i]).0@,
            ),
        m.contains_key(t.hash@) ==> m[t.hash@] == listing_payload(tree_entries(t.listings@)),
    ensures
        tree_lookup(put_spec(m, t.hash@, listing_payload(tree_entries(t.listings@))), t.hash@)
            == Ok::<Seq<ListingEntry>, VcError>(tree_entries(t.listings@)),
{
    let entries = tree_entries(t.listings@);
    assert forall|i: int| 0 <= i < entries.len() implies (#[trigger] entries[i]).2.len()
        == 32 by {
        assert(entries[i].2 == t.listings@[i].1.hash_model());
        assert(t.listings@[i].1.wf());
        match t.listings@[i].1 {
            FsObject::Blob(b) => {},
            FsObject::Tree(tr) => {},
        }
    }
    crate::records::lemma_listing_round_trip(entries);
    assert(entry_hashes(entries) =~= t.child_hashes());
}

/// Law: a commit just put can be got back unchanged.  If the store did
/// not already hold different bytes under the commit's hash, looking the
/// hash up after the put parses back to exactly the commit's fields.
pub proof fn lemma_store_commit_round_trip(m: Map<Seq<u8>, Seq<u8>>, c: Commit)
    requires
        c.wf(),
        c.parent_model() is Some ==> c.parent_model()->0.len() == 32,
        m.contains_key(c.hash@) ==> m[c.hash@] == commit_record(
            c.tree.hash@,
            c.parent_model(),
            c.author@,
            c.message@,
            c.timestamp,
        ),
    ensures
        commit_lookup(
            put_spec(
                m,
                c.hash@,
                commit_record(c.tree.hash@, c.parent_model(), c.author@, c.message@, c.timestamp),
            ),
            c.hash@,
        ) == Ok::<CommitModel, VcError>(
            (c.tree.hash@, c.parent_model(), c.author@, c.message@, c.timestamp),
        ),
{
    crate::records::lemma_commit_record_round_trip(
        c.tree.hash@,
        c.parent_model(),
        c.author@,
        c.message@,
        c.timestamp,
    );
}

} // verus!
