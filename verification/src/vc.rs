//! The content-addressed object model: blobs, trees and commits.
//!
//! Every object records its own hash.  A blob's hash is the digest of its
//! payload; a tree's hash combines its children's hashes with the children
//! in canonical order (sorted by name), so that two trees with the same
//! logical contents hash identically regardless of construction order; a
//! commit's hash covers its tree, parentage and metadata.

use vstd::prelude::*;
use vstd::multiset::Multiset;
use vstd::seq_lib::to_multiset_insert;
use vstd::seq_lib::group_to_multiset_ensures;

use crate::hashing::{combine_of, hash, hex_of, sha256_of};
use crate::util::{split_lines, split_lines_spec, utf8_lossy};

verus! {

/// The key under which a tree holds a child.
pub type Name = String;

// ---------------------------------------------------------------------------
// Lexicographic order on names, used for the canonical child order.
// ---------------------------------------------------------------------------

/// Strict lexicographic order on character sequences.
pub open spec fn lex_lt(a: Seq<char>, b: Seq<char>) -> bool
    decreases a.len(),
{
    if b.len() == 0 {
        false
    } else if a.len() == 0 {
        true
    } else if a.first() < b.first() {
        true
    } else if b.first() < a.first() {
        false
    } else {
        lex_lt(a.drop_first(), b.drop_first())
    }
}

pub proof fn lemma_lex_lt_connected(a: Seq<char>, b: Seq<char>)
    ensures
        lex_lt(a, b) || lex_lt(b, a) || a == b,
    decreases a.len(),
{
    if b.len() == 0 || a.len() == 0 {
        if a.len() == 0 && b.len() == 0 {
            assert(a =~= b);
        }
    } else if a.first() == b.first() {
        lemma_lex_lt_connected(a.drop_first(), b.drop_first());
        if !lex_lt(a, b) && !lex_lt(b, a) {
            assert(a.drop_first() == b.drop_first());
            assert(a.len() == b.len());
            assert forall|i: int| 0 <= i < a.len() implies a[i] == b[i] by {
                if i > 0 {
                    assert(a.drop_first()[i - 1] == b.drop_first()[i - 1]);
                }
            }
            assert(a =~= b);
        }
    }
}

pub proof fn lemma_lex_lt_asymmetric(a: Seq<char>, b: Seq<char>)
    ensures
        !(lex_lt(a, b) && lex_lt(b, a)),
    decreases a.len(),
{
    if a.len() != 0 && b.len() != 0 && a.first() == b.first() {
        lemma_lex_lt_asymmetric(a.drop_first(), b.drop_first());
    }
}

pub proof fn lemma_lex_lt_transitive(a: Seq<char>, b: Seq<char>, c: Seq<char>)
    requires
        lex_lt(a, b),
        lex_lt(b, c),
    ensures
        lex_lt(a, c),
    decreases a.len(),
{
    if b.len() == 0 {
        // lex_lt(a, b) would be false
    } else if a.len() == 0 {
        // c.len() > 0 since lex_lt(b, c) and b is nonempty
    } else {
        if a.first() == b.first() && b.first() == c.first() {
            lemma_lex_lt_transitive(a.drop_first(), b.drop_first(), c.drop_first());
        }
    }
}

/// Character-by-character comparison deciding [`lex_lt`].
pub fn lex_lt_exec(a: &str, b: &str) -> (r: bool)
    ensures
        r == lex_lt(a@, b@),
{
    let a_len = a.unicode_len();
    let b_len = b.unicode_len();
    let mut i: usize = 0;
    proof {
        assert(a@.skip(0) =~= a@);
        assert(b@.skip(0) =~= b@);
    }
    loop
        invariant
            i <= a_len,
            i <= b_len,
            a_len == a@.len(),
            b_len == b@.len(),
            lex_lt(a@, b@) == lex_lt(a@.skip(i as int), b@.skip(i as int)),
        decreases a_len - i,
    {
        let ghost sa = a@.skip(i as int);
        let ghost sb = b@.skip(i as int);
        if i >= b_len {
            // the rest of b is empty
            return false;
        }
        if i >= a_len {
            return true;
        }
        let ca = a.get_char(i);
        let cb = b.get_char(i);
        proof {
            assert(sa.first() == a@[i as int]);
            assert(sb.first() == b@[i as int]);
        }
        if ca < cb {
            return true;
        }
        if cb < ca {
            return false;
        }
        proof {
            assert(sa.drop_first() =~= a@.skip(i + 1));
            assert(sb.drop_first() =~= b@.skip(i + 1));
        }
        i = i + 1;
    }
}

// ---------------------------------------------------------------------------
// Blob: an immutable byte payload, hashed by content.
// ---------------------------------------------------------------------------

#[derive(Debug)]
pub struct Blob {
    pub data: Vec<u8>,
    pub hash: Vec<u8>,
}

impl Blob {
    /// The recorded hash matches the payload digest.
    pub open spec fn wf(&self) -> bool {
        self.hash@ == sha256_of(self.data@) && self.hash@.len() == 32
    }

    pub fn new(data: &[u8]) -> (r: Self)
        ensures
            r.wf(),
            r.data@ == data@,
    {
        let h = hash(data);
        Blob { data: vstd::slice::slice_to_vec(data), hash: h }
    }

    pub fn new_owned(data: Vec<u8>) -> (r: Self)
        ensures
            r.wf(),
            r.data@ == data@,
    {
        let h = hash(data.as_slice());
        Blob { data, hash: h }
    }

    pub fn get_data(&self) -> (r: &[u8])
        ensures
            r@ == self.data@,
    {
        self.data.as_slice()
    }

    /// The payload decoded as text; an exact decoding whenever the payload
    /// is well-formed UTF-8.
    pub fn get_data_as_string(&self) -> (r: String)
        ensures
            vstd::utf8::valid_utf8(self.data@) ==> vstd::utf8::encode_utf8(r@) == self.data@,
    {
        utf8_lossy(self.data.as_slice())
    }

    /// The payload split into lines, each decoded as text.
    pub fn get_data_as_lines(&self) -> (r: Vec<String>)
        ensures
            r@.len() == split_lines_spec(self.data@).len(),
            forall|i: int|
                0 <= i < r@.len() && vstd::utf8::valid_utf8(split_lines_spec(self.data@)[i])
                    ==> vstd::utf8::encode_utf8(#[trigger] r@[i]@) == split_lines_spec(
                    self.data@,
                )[i],
    {
        let lines = split_lines(self.data.as_slice());
        let mut out: Vec<String> = Vec::new();
        let n = lines.len();
        proof {
            assert(lines.deep_view().len() == n);
        }
        for i in 0..n
            invariant
                n == lines.len(),
            lines.deep_view() == split_lines_spec(self.data@),
                out@.len() == i,
                forall|j: int|
                    0 <= j < i && vstd::utf8::valid_utf8(split_lines_spec(self.data@)[j])
                        ==> vstd::utf8::encode_utf8(#[trigger] out@[j]@) == split_lines_spec(
                        self.data@,
                    )[j],
        {
            let s = utf8_lossy(lines[i].as_slice());
            proof {
                assert(lines@[i as int]@ == lines.deep_view()[i as int]);
            }
            out.push(s);
        }
        out
    }
}

// ---------------------------------------------------------------------------
// Trees and the filesystem objects they hold.
// ---------------------------------------------------------------------------

/// A filesystem object a tree can hold: a blob or a nested tree.
#[derive(Debug)]
pub enum FsObject {
    Blob(Blob),
    Tree(Tree),
}

/// A mapping from names to filesystem objects, hashed by combining the
/// children's hashes in canonical (name-sorted) order.
#[derive(Debug)]
pub struct Tree {
    pub listings: Vec<(Name, FsObject)>,
    pub hash: Vec<u8>,
}

impl FsObject {
    /// The hash the object records for itself.
    pub open spec fn hash_model(&self) -> Seq<u8> {
        match self {
            FsObject::Blob(b) => b.hash@,
            FsObject::Tree(t) => t.hash@,
        }
    }

    /// Recorded hashes match actual content, recursively.
    pub open spec fn wf(&self) -> bool
        decreases *self,
    {
        match self {
            FsObject::Blob(b) => b.wf(),
            FsObject::Tree(t) => t.wf(),
        }
    }

    /// The hash recomputed from content alone, ignoring recorded hashes.
    pub open spec fn subtree_hash(&self) -> Seq<u8>
        decreases *self,
    {
        match self {
            FsObject::Blob(b) => sha256_of(b.data@),
            FsObject::Tree(t) => t.subtree_hash(),
        }
    }
}

/// Whether entries are strictly sorted by name in lexicographic order.
pub open spec fn sorted_strict(entries: Seq<(Name, FsObject)>) -> bool {
    forall|i: int, j: int|
        0 <= i < j < entries.len() ==> lex_lt(
            #[trigger] entries[i].0@,
            #[trigger] entries[j].0@,
        )
}

/// Whether entry names are pairwise distinct.
pub open spec fn names_distinct(entries: Seq<(Name, FsObject)>) -> bool {
    forall|i: int, j: int|
        0 <= i < j < entries.len() ==> (#[trigger] entries[i].0@) != (#[trigger] entries[j].0@)
}

/// Whether every entry's object is well-formed.
pub open spec fn entries_wf(entries: Seq<(Name, FsObject)>) -> bool {
    forall|i: int| 0 <= i < entries.len() ==> (#[trigger] entries[i]).1.wf()
}

impl Tree {
    /// The children's names, in listing order.
    pub open spec fn names(&self) -> Seq<Seq<char>> {
        self.listings@.map_values(|e: (Name, FsObject)| e.0@)
    }

    /// The children's recorded hashes, in listing order.
    pub open spec fn child_hashes(&self) -> Seq<Seq<u8>> {
        self.listings@.map_values(|e: (Name, FsObject)| e.1.hash_model())
    }

    /// The listing is in canonical order: strictly sorted by name.
    pub open spec fn canonical(&self) -> bool {
        sorted_strict(self.listings@)
    }

    /// The recorded hash combines the children's recorded hashes.
    pub open spec fn hash_ok(&self) -> bool {
        self.hash@ == combine_of(self.child_hashes()) && self.hash@.len() == 32
    }

    /// Canonical order and correct hashes, recursively.
    pub open spec fn wf(&self) -> bool
        decreases *self,
    {
        &&& self.hash_ok()
        &&& self.canonical()
        &&& forall|i: int| 0 <= i < self.listings@.len() ==> (#[trigger] self.listings@[i]).1.wf()
    }

    /// The hash recomputed from content alone, ignoring recorded hashes.
    pub open spec fn subtree_hash(&self) -> Seq<u8>
        decreases *self,
    {
        combine_of(subtree_hashes(self.listings@))
    }
}

/// The content-recomputed hashes of a run of entries.
pub open spec fn subtree_hashes(entries: Seq<(Name, FsObject)>) -> Seq<Seq<u8>>
    decreases entries,
{
    if entries.len() == 0 {
        Seq::empty()
    } else {
        seq![entries.first().1.subtree_hash()] + subtree_hashes(entries.drop_first())
    }
}

/// Inserts an entry into a name-sorted listing, keeping it sorted.
fn insert_sorted(v: &mut Vec<(Name, FsObject)>, e: (Name, FsObject))
    requires
        sorted_strict(old(v)@),
        forall|i: int| 0 <= i < old(v)@.len() ==> (#[trigger] old(v)@[i].0@) != e.0@,
    ensures
        sorted_strict(final(v)@),
        final(v)@.to_multiset() == old(v)@.to_multiset().insert(e),
        final(v)@.len() == old(v)@.len() + 1,
{
    let mut idx: usize = 0;
    while idx < v.len() && lex_lt_exec(v[idx].0.as_str(), e.0.as_str())
        invariant
            idx <= v@.len(),
            v == old(v),
            forall|j: int| 0 <= j < idx ==> lex_lt(#[trigger] v@[j].0@, e.0@),
        decreases v@.len() - idx,
    {
        idx = idx + 1;
    }
    proof {
        if idx < v@.len() {
            lemma_lex_lt_connected(v@[idx as int].0@, e.0@);
            assert(lex_lt(e.0@, v@[idx as int].0@));
        }
    }
    let ghost pre = v@;
    let ghost entry = e;
    v.insert(idx, e);
    proof {
        to_multiset_insert(pre, idx as int, entry);
        assert forall|i: int, j: int| 0 <= i < j < v@.len() implies lex_lt(
            v@[i].0@,
            v@[j].0@,
        ) by {
            let k = idx as int;
            if j < k {
                assert(v@[i] == pre[i] && v@[j] == pre[j]);
            } else if i > k {
                assert(v@[i] == pre[i - 1] && v@[j] == pre[j - 1]);
            } else if i < k && j == k {
                assert(v@[i] == pre[i]);
                assert(lex_lt(pre[i].0@, entry.0@));
            } else if i == k && j > k {
                assert(v@[j] == pre[j - 1]);
                assert(lex_lt(entry.0@, pre[k].0@));
                if j - 1 > k {
                    lemma_lex_lt_transitive(entry.0@, pre[k].0@, pre[j - 1].0@);
                }
            } else {
                // i < k < j: both stand in pre, with i < j - 1
                assert(v@[i] == pre[i] && v@[j] == pre[j - 1]);
                assert(lex_lt(pre[i].0@, pre[j - 1].0@));
            }
        }
    }
}

impl Tree {
    /// Builds a tree from a listing with distinct names; the children are
    /// put in canonical order and the tree hash combines their hashes in
    /// that order.
    pub fn new(listings: Vec<(Name, FsObject)>) -> (r: Self)
        requires
            names_distinct(listings@),
        ensures
            r.canonical(),
            r.hash_ok(),
            r.listings@.to_multiset() == listings@.to_multiset(),
            entries_wf(listings@) ==> r.wf(),
    {
        broadcast use group_to_multiset_ensures;
        broadcast use vstd::multiset::group_multiset_axioms;

        let ghost orig = listings@;
        let mut input = listings;
        let mut sorted: Vec<(Name, FsObject)> = Vec::new();
        while input.len() > 0
            invariant
                sorted_strict(sorted@),
                sorted@.to_multiset().add(input@.to_multiset()) == orig.to_multiset(),
                names_distinct(input@),
                forall|i: int, j: int|
                    0 <= i < sorted@.len() && 0 <= j < input@.len() ==> (
                    #[trigger] sorted@[i].0@) != (#[trigger] input@[j].0@),
            decreases input@.len(),
        {
            let ghost pre_input = input@;
            let e = match input.pop() {
                Some(e) => e,
                None => vstd::pervasive::unreached(),
            };
            proof {
                assert(pre_input =~= input@.push(e));
                input@.to_multiset_ensures();
                assert(pre_input.to_multiset() == input@.to_multiset().insert(e));
                assert forall|i: int| 0 <= i < sorted@.len() implies (
                #[trigger] sorted@[i].0@) != e.0@ by {
                    assert(e == pre_input[pre_input.len() - 1]);
                }
            }
            let ghost pre_sorted = sorted@;
            insert_sorted(&mut sorted, e);
            proof {
                assert(sorted@.to_multiset().add(input@.to_multiset()) =~= orig.to_multiset());
                assert forall|i: int, j: int|
                    0 <= i < sorted@.len() && 0 <= j < input@.len() implies (
                #[trigger] sorted@[i].0@) != (#[trigger] input@[j].0@) by {
                    sorted@.to_multiset_ensures();
                    pre_sorted.to_multiset_ensures();
                    assert(sorted@.contains(sorted@[i])) by {
                        assert(exists|k: int|
                            0 <= k < sorted@.len() && sorted@[k] == sorted@[i]) by {
                            assert(0 <= i < sorted@.len() && sorted@[i] == sorted@[i]);
                        }
                    }
                    assert(sorted@.to_multiset().count(sorted@[i]) > 0);
                    assert(pre_sorted.to_multiset().insert(e).count(sorted@[i]) > 0);
                    if sorted@[i] == e {
                        assert(input@[j] == pre_input[j]);
                        assert(e == pre_input[pre_input.len() - 1]);
                    } else {
                        assert(pre_sorted.to_multiset().count(sorted@[i]) > 0);
                        assert(pre_sorted.contains(sorted@[i]));
                        let k = choose|k: int|
                            0 <= k < pre_sorted.len() && pre_sorted[k] == sorted@[i];
                        assert(pre_sorted[k].0@ != input@[j].0@);
                    }
                }
            }
        }
        proof {
            assert(input@.to_multiset() =~= Multiset::<(Name, FsObject)>::empty());
            assert(sorted@.to_multiset() =~= orig.to_multiset());
        }
        // combine the children's hashes in canonical order
        let mut hs: Vec<Vec<u8>> = Vec::new();
        let n = sorted.len();
        for i in 0..n
            invariant
                n == sorted@.len(),
                hs.deep_view() == sorted@.subrange(0, i as int).map_values(
                    |e: (Name, FsObject)| e.1.hash_model(),
                ),
        {
            let h = match &sorted[i].1 {
                FsObject::Blob(b) => b.hash.clone(),
                FsObject::Tree(t) => t.hash.clone(),
            };
            proof {
                assert(h@ =~= sorted@[i as int].1.hash_model());
            }
            let ghost pre_hs = hs.deep_view();
            hs.push(h);
            proof {
                assert(hs.deep_view() =~~= pre_hs.push(h@));
                assert(hs.deep_view() =~= sorted@.subrange(0, i + 1).map_values(
                    |e: (Name, FsObject)| e.1.hash_model(),
                ));
            }
        }
        let combined = crate::hashing::combine_hashes(&hs);
        let r = Tree { listings: sorted, hash: combined };
        proof {
            assert(sorted@.subrange(0, n as int) =~= sorted@);
            assert(r.child_hashes() =~= hs.deep_view());
            if entries_wf(orig) {
                assert forall|i: int| 0 <= i < r.listings@.len() implies (
                #[trigger] r.listings@[i]).1.wf() by {
                    r.listings@.to_multiset_ensures();
                    orig.to_multiset_ensures();
                    assert(r.listings@.contains(r.listings@[i])) by {
                        assert(0 <= i < r.listings@.len() && r.listings@[i] == r.listings@[i]);
                    }
                    assert(r.listings@.to_multiset().count(r.listings@[i]) > 0);
                    assert(orig.to_multiset().count(r.listings@[i]) > 0);
                    assert(orig.contains(r.listings@[i]));
                    let k = choose|k: int| 0 <= k < orig.len() && orig[k] == r.listings@[i];
                    assert(orig[k].1.wf());
                }
            }
        }
        r
    }
}

/// Two strictly name-sorted listings holding the same entries are equal.
pub proof fn lemma_canonical_unique(x: Seq<(Name, FsObject)>, y: Seq<(Name, FsObject)>)
    requires
        sorted_strict(x),
        sorted_strict(y),
        x.to_multiset() == y.to_multiset(),
    ensures
        x == y,
    decreases x.len(),
{
    broadcast use vstd::multiset::group_multiset_axioms;

    x.to_multiset_ensures();
    y.to_multiset_ensures();
    if x.len() == 0 || y.len() == 0 {
        assert(x.len() == x.to_multiset().len());
        assert(y.len() == y.to_multiset().len());
        assert(x =~= y);
    } else {
        assert(x.contains(x[0])) by {
            assert(0 <= 0 < x.len() && x[0] == x[0]);
        }
        assert(y.to_multiset().count(x[0]) > 0);
        assert(y.contains(x[0]));
        let i = choose|i: int| 0 <= i < y.len() && y[i] == x[0];
        assert(y.contains(y[0])) by {
            assert(0 <= 0 < y.len() && y[0] == y[0]);
        }
        assert(x.to_multiset().count(y[0]) > 0);
        assert(x.contains(y[0]));
        let j = choose|j: int| 0 <= j < x.len() && x[j] == y[0];
        if x[0] != y[0] {
            assert(i != 0 && j != 0);
            assert(lex_lt(y[0].0@, y[i].0@));
            assert(lex_lt(x[0].0@, x[j].0@));
            lemma_lex_lt_asymmetric(y[0].0@, x[0].0@);
            assert(false);
        }
        assert(x.drop_first() =~= x.remove(0));
        assert(y.drop_first() =~= y.remove(0));
        assert(x.remove(0).to_multiset() == x.to_multiset().remove(x[0]));
        assert(y.remove(0).to_multiset() == y.to_multiset().remove(y[0]));
        assert forall|a: int, b: int| 0 <= a < b < x.drop_first().len() implies lex_lt(
            #[trigger] x.drop_first()[a].0@,
            #[trigger] x.drop_first()[b].0@,
        ) by {
            assert(x.drop_first()[a] == x[a + 1] && x.drop_first()[b] == x[b + 1]);
        }
        assert forall|a: int, b: int| 0 <= a < b < y.drop_first().len() implies lex_lt(
            #[trigger] y.drop_first()[a].0@,
            #[trigger] y.drop_first()[b].0@,
        ) by {
            assert(y.drop_first()[a] == y[a + 1] && y.drop_first()[b] == y[b + 1]);
        }
        lemma_canonical_unique(x.drop_first(), y.drop_first());
        assert forall|k: int| 0 <= k < x.len() implies x[k] == y[k] by {
            if k > 0 {
                assert(x.drop_first()[k - 1] == y.drop_first()[k - 1]);
            }
        }
        assert(x =~= y);
    }
}

/// Law: a tree's hash does not depend on insertion order.  Any two
/// canonically ordered trees with correct hashes that hold the same
/// entries have the same listing and the same hash.  Together with the
/// contract of [`Tree::new`], building a tree from any reordering of one
/// listing yields the same hash.
pub proof fn lemma_tree_hash_insertion_order(t1: Tree, t2: Tree)
    requires
        t1.canonical(),
        t2.canonical(),
        t1.hash_ok(),
        t2.hash_ok(),
        t1.listings@.to_multiset() == t2.listings@.to_multiset(),
    ensures
        t1.listings@ == t2.listings@,
        t1.hash@ == t2.hash@,
{
    lemma_canonical_unique(t1.listings@, t2.listings@);
    assert(t1.child_hashes() =~= t2.child_hashes());
}

/// Two strictly lex-sorted name runs holding the same names are equal.
proof fn lemma_sorted_names_unique(x: Seq<Seq<char>>, y: Seq<Seq<char>>)
    requires
        forall|i: int, j: int| 0 <= i < j < x.len() ==> lex_lt(#[trigger] x[i], #[trigger] x[j]),
        forall|i: int, j: int| 0 <= i < j < y.len() ==> lex_lt(#[trigger] y[i], #[trigger] y[j]),
        x.to_multiset() == y.to_multiset(),
    ensures
        x == y,
    decreases x.len(),
{
    broadcast use vstd::multiset::group_multiset_axioms;

    x.to_multiset_ensures();
    y.to_multiset_ensures();
    if x.len() == 0 || y.len() == 0 {
        assert(x.len() == x.to_multiset().len());
        assert(y.len() == y.to_multiset().len());
        assert(x =~= y);
    } else {
        assert(x.contains(x[0])) by {
            assert(0 <= 0 < x.len() && x[0] == x[0]);
        }
        assert(y.to_multiset().count(x[0]) > 0);
        assert(y.contains(x[0]));
        let i = choose|i: int| 0 <= i < y.len() && y[i] == x[0];
        assert(y.contains(y[0])) by {
            assert(0 <= 0 < y.len() && y[0] == y[0]);
        }
        assert(x.to_multiset().count(y[0]) > 0);
        assert(x.contains(y[0]));
        let j = choose|j: int| 0 <= j < x.len() && x[j] == y[0];
        if x[0] != y[0] {
            assert(i != 0 && j != 0);
            assert(lex_lt(y[0], y[i]));
            assert(lex_lt(x[0], x[j]));
            lemma_lex_lt_asymmetric(y[0], x[0]);
            assert(false);
        }
        assert(x.drop_first() =~= x.remove(0));
        assert(y.drop_first() =~= y.remove(0));
        assert(x.remove(0).to_multiset() == x.to_multiset().remove(x[0]));
        assert(y.remove(0).to_multiset() == y.to_multiset().remove(y[0]));
        assert forall|a: int, b: int| 0 <= a < b < x.drop_first().len() implies lex_lt(
            #[trigger] x.drop_first()[a],
            #[trigger] x.drop_first()[b],
        ) by {
            assert(x.drop_first()[a] == x[a + 1] && x.drop_first()[b] == x[b + 1]);
        }
        assert forall|a: int, b: int| 0 <= a < b < y.drop_first().len() implies lex_lt(
            #[trigger] y.drop_first()[a],
            #[trigger] y.drop_first()[b],
        ) by {
            assert(y.drop_first()[a] == y[a + 1] && y.drop_first()[b] == y[b + 1]);
        }
        lemma_sorted_names_unique(x.drop_first(), y.drop_first());
        assert forall|k: int| 0 <= k < x.len() implies x[k] == y[k] by {
            if k > 0 {
                assert(x.drop_first()[k - 1] == y.drop_first()[k - 1]);
            }
        }
        assert(x =~= y);
    }
}

/// Law (insertion order, generalised): a tree's hash depends only on the
/// association of names to child hashes.  Any two canonically ordered
/// trees with correct hashes whose listings carry the same names, with
/// hash-equal children under each shared name, hash identically —
/// whatever the children's own kind or structure.
pub proof fn lemma_tree_hash_same_children(t1: Tree, t2: Tree)
    requires
        t1.canonical(),
        t2.canonical(),
        t1.hash_ok(),
        t2.hash_ok(),
        t1.names().to_multiset() == t2.names().to_multiset(),
        forall|i: int, j: int|
            0 <= i < t1.listings@.len() && 0 <= j < t2.listings@.len() && (
            #[trigger] t1.listings@[i]).0@ == (#[trigger] t2.listings@[j]).0@
                ==> t1.listings@[i].1.hash_model() == t2.listings@[j].1.hash_model(),
    ensures
        t1.hash@ == t2.hash@,
{
    assert forall|a: int, b: int| 0 <= a < b < t1.names().len() implies lex_lt(
        #[trigger] t1.names()[a],
        #[trigger] t1.names()[b],
    ) by {
        assert(t1.names()[a] == t1.listings@[a].0@ && t1.names()[b] == t1.listings@[b].0@);
    }
    assert forall|a: int, b: int| 0 <= a < b < t2.names().len() implies lex_lt(
        #[trigger] t2.names()[a],
        #[trigger] t2.names()[b],
    ) by {
        assert(t2.names()[a] == t2.listings@[a].0@ && t2.names()[b] == t2.listings@[b].0@);
    }
    lemma_sorted_names_unique(t1.names(), t2.names());
    assert forall|k: int| 0 <= k < t1.child_hashes().len() implies t1.child_hashes()[k]
        == t2.child_hashes()[k] by {
        assert(t1.names()[k] == t1.listings@[k].0@);
        assert(t2.names()[k] == t2.listings@[k].0@);
        assert(t1.listings@[k].0@ == t2.listings@[k].0@);
        assert(t1.child_hashes()[k] == t1.listings@[k].1.hash_model());
        assert(t2.child_hashes()[k] == t2.listings@[k].1.hash_model());
    }
    assert(t1.child_hashes() =~= t2.child_hashes());
}

// ---------------------------------------------------------------------------
// Commit: a tree plus lineage and metadata.
// ---------------------------------------------------------------------------

/// The stand-in hash for a commit without a parent.
pub open spec fn zero_hash() -> Seq<u8> {
    Seq::new(32, |i: int| 0u8)
}

/// A u64 in little-endian byte order.
pub open spec fn u64_le_bytes(n: u64) -> Seq<u8> {
    Seq::new(8, |i: int| ((n >> ((8 * i) as u64)) & 0xff) as u8)
}

/// The bytes a commit's hash is the digest of: tree hash, parent hash (or
/// zeros), author, message, and the timestamp in seconds.
pub open spec fn commit_preimage(
    tree_hash: Seq<u8>,
    parent: Option<Seq<u8>>,
    author: Seq<char>,
    message: Seq<char>,
    timestamp: u64,
) -> Seq<u8> {
    tree_hash + (match parent {
        Some(p) => p,
        None => zero_hash(),
    }) + vstd::utf8::encode_utf8(author) + vstd::utf8::encode_utf8(message) + u64_le_bytes(
        timestamp,
    )
}

/// A commit owns one tree and refers to its parent commit by hash,
/// forming a backward-linked history chain.
#[derive(Debug)]
pub struct Commit {
    pub tree: Tree,
    pub hash: Vec<u8>,
    pub parent: Option<Vec<u8>>,
    pub author: String,
    pub message: String,
    pub timestamp: u64,
}

impl Commit {
    /// The parent hash as a byte sequence, if any.
    pub open spec fn parent_model(&self) -> Option<Seq<u8>> {
        match self.parent {
            Some(p) => Some(p@),
            None => None,
        }
    }

    /// The recorded hash matches the digest of the commit's preimage.
    pub open spec fn hash_ok(&self) -> bool {
        self.hash@ == sha256_of(
            commit_preimage(
                self.tree.hash@,
                self.parent_model(),
                self.author@,
                self.message@,
                self.timestamp,
            ),
        ) && self.hash@.len() == 32
    }

    pub open spec fn wf(&self) -> bool {
        self.hash_ok() && self.tree.wf()
    }

    /// The preimage digest with the tree's hash recomputed from content.
    pub open spec fn subtree_hash(&self) -> Seq<u8> {
        sha256_of(
            commit_preimage(
                self.tree.subtree_hash(),
                self.parent_model(),
                self.author@,
                self.message@,
                self.timestamp,
            ),
        )
    }

    /// Builds a commit over a tree; the caller supplies the creation time
    /// in seconds since the epoch.
    pub fn new(
        tree: Tree,
        parent: Option<Vec<u8>>,
        author: String,
        message: String,
        timestamp: u64,
    ) -> (r: Self)
        ensures
            r.tree == tree,
            r.parent == parent,
            r.author == author,
            r.message == message,
            r.timestamp == timestamp,
            r.hash_ok(),
            tree.wf() ==> r.wf(),
    {
        let pre = commit_preimage_exec(
            tree.hash.as_slice(),
            &parent,
            author.as_str(),
            message.as_str(),
            timestamp,
        );
        let h = hash(pre.as_slice());
        Commit { tree, hash: h, parent, author, message, timestamp }
    }
}

// ---------------------------------------------------------------------------
// The Merkle node contract: direct and recursive hash computation and
// verification, uniformly over the object kinds.
// ---------------------------------------------------------------------------

/// Copies a hash value.
pub(crate) fn clone_hash(v: &Vec<u8>) -> (r: Vec<u8>)
    ensures
        r@ == v@,
{
    let r = v.clone();
    proof {
        assert(r@ =~= v@);
    }
    r
}

/// Compares two hash values for equality.
pub(crate) fn hash_eq(a: &Vec<u8>, b: &Vec<u8>) -> (r: bool)
    ensures
        r == (a@ == b@),
{
    let r = a == b;
    proof {
        if r {
            assert(a@ =~= b@);
        } else {
            if a@ == b@ {
                assert(a.len() == b.len());
                assert(r);
            }
        }
    }
    r
}

pub proof fn lemma_subtree_hashes_push(entries: Seq<(Name, FsObject)>, e: (Name, FsObject))
    ensures
        subtree_hashes(entries.push(e)) == subtree_hashes(entries).push(e.1.subtree_hash()),
    decreases entries.len(),
{
    let ext = entries.push(e);
    if entries.len() == 0 {
        assert(ext.first() == e);
        assert(ext.drop_first() =~= Seq::<(Name, FsObject)>::empty());
        assert(entries =~= Seq::<(Name, FsObject)>::empty());
        assert(subtree_hashes(Seq::<(Name, FsObject)>::empty()) == Seq::<Seq<u8>>::empty());
        assert(subtree_hashes(ext) =~= subtree_hashes(entries).push(e.1.subtree_hash()));
    } else {
        assert(ext.first() == entries.first());
        assert(ext.drop_first() =~= entries.drop_first().push(e));
        lemma_subtree_hashes_push(entries.drop_first(), e);
        assert(subtree_hashes(ext) =~= subtree_hashes(entries).push(e.1.subtree_hash()));
    }
}

impl Blob {
    /// The hash recomputed from the payload.
    pub fn get_hash(&self) -> (r: Vec<u8>)
        ensures
            r@ == sha256_of(self.data@),
            r@.len() == 32,
    {
        hash(self.data.as_slice())
    }

    /// A blob has no children.
    pub fn is_leaf(&self) -> (r: bool)
        ensures
            r == true,
    {
        true
    }

    pub fn get_child_hashes(&self) -> (r: Vec<Vec<u8>>)
        ensures
            r@.len() == 0,
    {
        Vec::new()
    }

    /// Recomputes the hash from the payload.
    pub fn compute_hash(&self) -> (r: Vec<u8>)
        ensures
            r@ == sha256_of(self.data@),
            r@.len() == 32,
    {
        hash(self.data.as_slice())
    }

    /// For a leaf, the recursive recomputation is the direct one.
    pub fn compute_hash_recursive(&self) -> (r: Vec<u8>)
        ensures
            r@ == sha256_of(self.data@),
            r@.len() == 32,
    {
        hash(self.data.as_slice())
    }

    /// Whether the recorded hash matches the recomputed one.
    pub fn verify_hash(&self) -> (r: bool)
        ensures
            r == self.wf(),
            r == (self.hash@ == sha256_of(self.data@)),
    {
        let recomputed = hash(self.data.as_slice());
        hash_eq(&recomputed, &self.hash)
    }

    pub fn verify_hash_recursive(&self) -> (r: bool)
        ensures
            r == self.wf(),
            r == (self.hash@ == sha256_of(self.data@)),
    {
        self.verify_hash()
    }

    /// Whether the recomputed hash matches an externally supplied one.
    pub fn verify_hash_recursive_with(&self, expected: &[u8]) -> (r: bool)
        ensures
            r == (expected@ == sha256_of(self.data@)),
    {
        let recomputed = hash(self.data.as_slice());
        let expected_vec = vstd::slice::slice_to_vec(expected);
        hash_eq(&recomputed, &expected_vec)
    }
}

impl Tree {
    /// The recorded hash.
    pub fn get_hash(&self) -> (r: Vec<u8>)
        ensures
            r@ == self.hash@,
    {
        clone_hash(&self.hash)
    }

    /// A tree is a leaf exactly when it has no children.
    pub fn is_leaf(&self) -> (r: bool)
        ensures
            r == (self.listings@.len() == 0),
    {
        self.listings.len() == 0
    }

    /// The children's recorded hashes, in listing order.
    pub fn get_child_hashes(&self) -> (r: Vec<Vec<u8>>)
        ensures
            r.deep_view() == self.child_hashes(),
    {
        let mut hs: Vec<Vec<u8>> = Vec::new();
        let n = self.listings.len();
        for i in 0..n
            invariant
                n == self.listings@.len(),
                hs.deep_view() == self.listings@.subrange(0, i as int).map_values(
                    |e: (Name, FsObject)| e.1.hash_model(),
                ),
        {
            let h = match &self.listings[i].1 {
                FsObject::Blob(b) => clone_hash(&b.hash),
                FsObject::Tree(t) => clone_hash(&t.hash),
            };
            let ghost pre_hs = hs.deep_view();
            hs.push(h);
            proof {
                assert(hs.deep_view() =~~= pre_hs.push(h@));
                assert(hs.deep_view() =~= self.listings@.subrange(0, i + 1).map_values(
                    |e: (Name, FsObject)| e.1.hash_model(),
                ));
            }
        }
        proof {
            assert(self.listings@.subrange(0, n as int) =~= self.listings@);
            assert(hs.deep_view() =~= self.child_hashes());
        }
        hs
    }

    /// Recomputes the hash from the children's recorded hashes: cheap,
    /// trusting what the children record of themselves.
    pub fn compute_hash(&self) -> (r: Vec<u8>)
        ensures
            r@ == combine_of(self.child_hashes()),
            r@.len() == 32,
    {
        let hs = self.get_child_hashes();
        crate::hashing::combine_hashes(&hs)
    }

    /// Recomputes the whole subtree's hash from content alone:
    /// authoritative, O(subtree size).
    pub fn compute_hash_recursive(&self) -> (r: Vec<u8>)
        ensures
            r@ == self.subtree_hash(),
            r@.len() == 32,
        decreases *self,
    {
        let mut hs: Vec<Vec<u8>> = Vec::new();
        let n = self.listings.len();
        for i in 0..n
            invariant
                n == self.listings@.len(),
                hs.deep_view() == subtree_hashes(self.listings@.subrange(0, i as int)),
        {
            let h = self.listings[i].1.compute_hash_recursive();
            let ghost pre_hs = hs.deep_view();
            let ghost pre_entries = self.listings@.subrange(0, i as int);
            hs.push(h);
            proof {
                lemma_subtree_hashes_push(pre_entries, self.listings@[i as int]);
                assert(pre_entries.push(self.listings@[i as int]) =~= self.listings@.subrange(
                    0,
                    i + 1,
                ));
                assert(hs.deep_view() =~~= pre_hs.push(h@));
                assert(hs.deep_view() =~= subtree_hashes(self.listings@.subrange(0, i + 1)));
            }
        }
        proof {
            assert(self.listings@.subrange(0, n as int) =~= self.listings@);
        }
        crate::hashing::combine_hashes(&hs)
    }

    /// Whether the recorded hash matches the cheap recomputation over the
    /// children's recorded hashes.
    pub fn verify_hash(&self) -> (r: bool)
        ensures
            r == self.hash_ok(),
    {
        let recomputed = self.compute_hash();
        hash_eq(&recomputed, &self.hash)
    }

    /// Whether the recorded hash matches the authoritative recursive
    /// recomputation; tampering anywhere below makes this fail, as long as
    /// the digest of the altered content differs.
    pub fn verify_hash_recursive(&self) -> (r: bool)
        ensures
            r == (self.hash@ == self.subtree_hash()),
    {
        let recomputed = self.compute_hash_recursive();
        hash_eq(&recomputed, &self.hash)
    }

    /// Whether the recursive recomputation matches an externally supplied
    /// hash.
    pub fn verify_hash_recursive_with(&self, expected: &[u8]) -> (r: bool)
        ensures
            r == (expected@ == self.subtree_hash()),
    {
        let recomputed = self.compute_hash_recursive();
        let expected_vec = vstd::slice::slice_to_vec(expected);
        hash_eq(&recomputed, &expected_vec)
    }
}

impl FsObject {
    /// The object's hash: recomputed for a blob, recorded for a tree.
    pub fn get_hash(&self) -> (r: Vec<u8>)
        ensures
            r@ == (match self {
                FsObject::Blob(b) => sha256_of(b.data@),
                FsObject::Tree(t) => t.hash@,
            }),
    {
        match self {
            FsObject::Blob(b) => b.get_hash(),
            FsObject::Tree(t) => t.get_hash(),
        }
    }

    pub fn is_leaf(&self) -> (r: bool)
        ensures
            r == (match self {
                FsObject::Blob(_) => true,
                FsObject::Tree(t) => t.listings@.len() == 0,
            }),
    {
        match self {
            FsObject::Blob(b) => b.is_leaf(),
            FsObject::Tree(t) => t.is_leaf(),
        }
    }

    pub fn compute_hash(&self) -> (r: Vec<u8>)
        ensures
            r@ == (match self {
                FsObject::Blob(b) => sha256_of(b.data@),
                FsObject::Tree(t) => combine_of(t.child_hashes()),
            }),
    {
        match self {
            FsObject::Blob(b) => b.compute_hash(),
            FsObject::Tree(t) => t.compute_hash(),
        }
    }

    pub fn compute_hash_recursive(&self) -> (r: Vec<u8>)
        ensures
            r@ == self.subtree_hash(),
            r@.len() == 32,
        decreases *self,
    {
        match self {
            FsObject::Blob(b) => b.compute_hash_recursive(),
            FsObject::Tree(t) => t.compute_hash_recursive(),
        }
    }

    pub fn verify_hash(&self) -> (r: bool)
        ensures
            r == (match self {
                FsObject::Blob(b) => b.wf(),
                FsObject::Tree(t) => t.hash_ok(),
            }),
    {
        match self {
            FsObject::Blob(b) => b.verify_hash(),
            FsObject::Tree(t) => t.verify_hash(),
        }
    }

    pub fn verify_hash_recursive(&self) -> (r: bool)
        ensures
            r == (self.hash_model() == self.subtree_hash()),
    {
        match self {
            FsObject::Blob(b) => b.verify_hash_recursive(),
            FsObject::Tree(t) => t.verify_hash_recursive(),
        }
    }

    pub fn verify_hash_recursive_with(&self, expected: &[u8]) -> (r: bool)
        ensures
            r == (expected@ == self.subtree_hash()),
    {
        match self {
            FsObject::Blob(b) => b.verify_hash_recursive_with(expected),
            FsObject::Tree(t) => t.verify_hash_recursive_with(expected),
        }
    }
}

impl Commit {
    /// The recorded hash.
    pub fn get_hash(&self) -> (r: Vec<u8>)
        ensures
            r@ == self.hash@,
    {
        clone_hash(&self.hash)
    }

    /// A commit always has its tree as a child.
    pub fn is_leaf(&self) -> (r: bool)
        ensures
            r == false,
    {
        false
    }

    pub fn get_child_hashes(&self) -> (r: Vec<Vec<u8>>)
        ensures
            r.deep_view() =~= seq![self.tree.hash@],
    {
        let mut hs: Vec<Vec<u8>> = Vec::new();
        hs.push(clone_hash(&self.tree.hash));
        proof {
            assert(hs.deep_view() =~~= seq![self.tree.hash@]);
        }
        hs
    }

    /// Recomputes the commit hash over the tree's recorded hash.
    pub fn compute_hash(&self) -> (r: Vec<u8>)
        ensures
            r@ == sha256_of(
                commit_preimage(
                    self.tree.hash@,
                    self.parent_model(),
                    self.author@,
                    self.message@,
                    self.timestamp,
                ),
            ),
            r@.len() == 32,
    {
        let pre = commit_preimage_exec(
            self.tree.hash.as_slice(),
            &self.parent,
            self.author.as_str(),
            self.message.as_str(),
            self.timestamp,
        );
        hash(pre.as_slice())
    }

    /// Recomputes the commit hash with the tree's own hash recomputed
    /// from content.
    pub fn compute_hash_recursive(&self) -> (r: Vec<u8>)
        ensures
            r@ == self.subtree_hash(),
            r@.len() == 32,
    {
        let tree_hash = self.tree.compute_hash_recursive();
        let pre = commit_preimage_exec(
            tree_hash.as_slice(),
            &self.parent,
            self.author.as_str(),
            self.message.as_str(),
            self.timestamp,
        );
        hash(pre.as_slice())
    }

    /// Whether the recorded hash matches the recomputation over the
    /// tree's recorded hash.
    pub fn verify_hash(&self) -> (r: bool)
        ensures
            r == self.hash_ok(),
    {
        let recomputed = self.compute_hash();
        hash_eq(&recomputed, &self.hash)
    }

    pub fn verify_hash_recursive(&self) -> (r: bool)
        ensures
            r == (self.hash@ == self.subtree_hash()),
    {
        let recomputed = self.compute_hash_recursive();
        hash_eq(&recomputed, &self.hash)
    }

    pub fn verify_hash_recursive_with(&self, expected: &[u8]) -> (r: bool)
        ensures
            r == (expected@ == self.subtree_hash()),
    {
        let recomputed = self.compute_hash_recursive();
        let expected_vec = vstd::slice::slice_to_vec(expected);
        hash_eq(&recomputed, &expected_vec)
    }
}

/// Builds the byte preimage a commit's hash is the digest of.
pub(crate) fn commit_preimage_exec(
    tree_hash: &[u8],
    parent: &Option<Vec<u8>>,
    author: &str,
    message: &str,
    timestamp: u64,
) -> (r: Vec<u8>)
    ensures
        r@ == commit_preimage(
            tree_hash@,
            match parent {
                Some(p) => Some(p@),
                None => None,
            },
            author@,
            message@,
            timestamp,
        ),
{
    let mut pre: Vec<u8> = Vec::new();
    pre.extend_from_slice(tree_hash);
    match parent {
        Some(p) => {
            pre.extend_from_slice(p.as_slice());
        },
        None => {
            let ghost mid = pre@;
            for k in 0..32usize
                invariant
                    pre@.len() == mid.len() + k,
                    pre@.subrange(0, mid.len() as int) == mid,
                    forall|t: int| mid.len() <= t < pre@.len() ==> pre@[t] == 0u8,
            {
                let ghost before = pre@;
                pre.push(0u8);
                proof {
                    assert(pre@.subrange(0, mid.len() as int) =~= before.subrange(
                        0,
                        mid.len() as int,
                    ));
                }
            }
            proof {
                assert(pre@ =~= mid + zero_hash());
            }
        },
    }
    pre.extend_from_slice(author.as_bytes());
    pre.extend_from_slice(message.as_bytes());
    let mut tsb: Vec<u8> = Vec::new();
    tsb.push(((timestamp >> 0u64) & 0xff) as u8);
    tsb.push(((timestamp >> 8u64) & 0xff) as u8);
    tsb.push(((timestamp >> 16u64) & 0xff) as u8);
    tsb.push(((timestamp >> 24u64) & 0xff) as u8);
    tsb.push(((timestamp >> 32u64) & 0xff) as u8);
    tsb.push(((timestamp >> 40u64) & 0xff) as u8);
    tsb.push(((timestamp >> 48u64) & 0xff) as u8);
    tsb.push(((timestamp >> 56u64) & 0xff) as u8);
    proof {
        assert(tsb@ =~= u64_le_bytes(timestamp));
    }
    pre.extend_from_slice(tsb.as_slice());
    proof {
        assert(pre@ =~= commit_preimage(
            tree_hash@,
            match parent {
                Some(p) => Some(p@),
                None => None,
            },
            author@,
            message@,
            timestamp,
        ));
    }
    pre
}

// ---------------------------------------------------------------------------
// VcObject: any durable object, and the shared identity capability.
// ---------------------------------------------------------------------------

/// Any content-addressed object the store can hold.
#[derive(Debug)]
pub enum VcObject {
    FsObject(FsObject),
    Commit(Commit),
}

impl VcObject {
    /// The hash the object records for itself.
    pub open spec fn hash_model(&self) -> Seq<u8> {
        match self {
            VcObject::FsObject(f) => f.hash_model(),
            VcObject::Commit(c) => c.hash@,
        }
    }

    pub open spec fn wf(&self) -> bool {
        match self {
            VcObject::FsObject(f) => f.wf(),
            VcObject::Commit(c) => c.wf(),
        }
    }

    pub open spec fn subtree_hash(&self) -> Seq<u8> {
        match self {
            VcObject::FsObject(f) => f.subtree_hash(),
            VcObject::Commit(c) => c.subtree_hash(),
        }
    }

    pub fn get_hash(&self) -> (r: Vec<u8>)
        ensures
            r@ == (match self {
                VcObject::FsObject(f) => match f {
                    FsObject::Blob(b) => sha256_of(b.data@),
                    FsObject::Tree(t) => t.hash@,
                },
                VcObject::Commit(c) => c.hash@,
            }),
    {
        match self {
            VcObject::FsObject(f) => f.get_hash(),
            VcObject::Commit(c) => c.get_hash(),
        }
    }

    pub fn compute_hash_recursive(&self) -> (r: Vec<u8>)
        ensures
            r@ == self.subtree_hash(),
            r@.len() == 32,
    {
        match self {
            VcObject::FsObject(f) => f.compute_hash_recursive(),
            VcObject::Commit(c) => c.compute_hash_recursive(),
        }
    }

    pub fn verify_hash_recursive(&self) -> (r: bool)
        ensures
            r == (self.hash_model() == self.subtree_hash()),
    {
        match self {
            VcObject::FsObject(f) => f.verify_hash_recursive(),
            VcObject::Commit(c) => c.verify_hash_recursive(),
        }
    }
}

/// Identity by content hash: every durable object and stub can name
/// itself by its hash, in bytes or as lowercase hex.
pub trait VcHashId {
    /// What the identity methods may assume of the value.
    spec fn id_wf(&self) -> bool;

    /// The hash under which the value identifies itself.
    spec fn id_hash(&self) -> Seq<u8>;

    fn get_hash_bytes(&self) -> (r: Vec<u8>)
        requires
            self.id_wf(),
        ensures
            r@ == self.id_hash(),
    ;

    fn get_hash_str(&self) -> (r: String)
        requires
            self.id_wf(),
        ensures
            r@ == hex_of(self.id_hash()),
    ;
}

impl VcHashId for Blob {
    open spec fn id_wf(&self) -> bool {
        true
    }

    open spec fn id_hash(&self) -> Seq<u8> {
        self.hash@
    }

    fn get_hash_bytes(&self) -> (r: Vec<u8>)
        ensures
            r@ == self.id_hash(),
    {
        clone_hash(&self.hash)
    }

    fn get_hash_str(&self) -> (r: String)
        ensures
            r@ == hex_of(self.id_hash()),
    {
        crate::hashing::hash_to_hex_string(self.hash.as_slice())
    }
}

impl VcHashId for Tree {
    open spec fn id_wf(&self) -> bool {
        true
    }

    open spec fn id_hash(&self) -> Seq<u8> {
        self.hash@
    }

    fn get_hash_bytes(&self) -> (r: Vec<u8>)
        ensures
            r@ == self.id_hash(),
    {
        clone_hash(&self.hash)
    }

    fn get_hash_str(&self) -> (r: String)
        ensures
            r@ == hex_of(self.id_hash()),
    {
        crate::hashing::hash_to_hex_string(self.hash.as_slice())
    }
}

impl VcHashId for Commit {
    open spec fn id_wf(&self) -> bool {
        true
    }

    open spec fn id_hash(&self) -> Seq<u8> {
        self.hash@
    }

    fn get_hash_bytes(&self) -> (r: Vec<u8>)
        ensures
            r@ == self.id_hash(),
    {
        clone_hash(&self.hash)
    }

    fn get_hash_str(&self) -> (r: String)
        ensures
            r@ == hex_of(self.id_hash()),
    {
        crate::hashing::hash_to_hex_string(self.hash.as_slice())
    }
}

impl VcHashId for FsObject {
    open spec fn id_wf(&self) -> bool {
        true
    }

    open spec fn id_hash(&self) -> Seq<u8> {
        self.hash_model()
    }

    fn get_hash_bytes(&self) -> (r: Vec<u8>)
        ensures
            r@ == self.id_hash(),
    {
        match self {
            FsObject::Blob(b) => clone_hash(&b.hash),
            FsObject::Tree(t) => clone_hash(&t.hash),
        }
    }

    fn get_hash_str(&self) -> (r: String)
        ensures
            r@ == hex_of(self.id_hash()),
    {
        match self {
            FsObject::Blob(b) => crate::hashing::hash_to_hex_string(b.hash.as_slice()),
            FsObject::Tree(t) => crate::hashing::hash_to_hex_string(t.hash.as_slice()),
        }
    }
}

impl VcHashId for VcObject {
    open spec fn id_wf(&self) -> bool {
        true
    }

    open spec fn id_hash(&self) -> Seq<u8> {
        self.hash_model()
    }

    fn get_hash_bytes(&self) -> (r: Vec<u8>)
        ensures
            r@ == self.id_hash(),
    {
        match self {
            VcObject::FsObject(f) => f.get_hash_bytes(),
            VcObject::Commit(c) => c.get_hash_bytes(),
        }
    }

    fn get_hash_str(&self) -> (r: String)
        ensures
            r@ == hex_of(self.id_hash()),
    {
        match self {
            VcObject::FsObject(f) => f.get_hash_str(),
            VcObject::Commit(c) => c.get_hash_str(),
        }
    }
}

// ---------------------------------------------------------------------------
// Laws of hashing over the object model.
// ---------------------------------------------------------------------------

/// Law: a blob's hash is determined by its payload alone.  Any two
/// well-formed blobs over the same bytes — built in any process, at any
/// time — record the same hash.
pub proof fn lemma_blob_hash_deterministic(b1: Blob, b2: Blob)
    requires
        b1.wf(),
        b2.wf(),
        b1.data@ == b2.data@,
    ensures
        b1.hash@ == b2.hash@,
{
}

} // verus!
