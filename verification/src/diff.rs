//! The structural diff engine.
//!
//! A diff node wraps an underlying node in exactly one of `NoChange`,
//! `Added`, `Deleted` or `Modified { old, new }`.  Hash equality certifies
//! subtree equality, so the engine never recurses into a subtree whose
//! hash matches — the core optimisation.  Chains of incremental snapshots
//! nest `Modified` wrappers; `fold_history` collapses a chain to its most
//! recent value while `get_ancestor` walks it backward.
//!
//! Every node kind has a mathematical model (`TextLinesModel`,
//! `FsItemModel`); the contracts of the engine are stated over those
//! models.

use vstd::prelude::*;

use crate::hashing::str_eq;
use crate::vc::clone_hash;

verus! {

// ---------------------------------------------------------------------------
// The executable node types.
// ---------------------------------------------------------------------------

/// A diff node over the lines of a text file: a single line, a contiguous
/// line range whose hash combines its member lines' hashes, or a change
/// wrapper around either.
#[derive(Debug)]
pub enum DiffNodeTextLines {
    Line { line_num: u64, content: Vec<u8>, hash: Vec<u8> },
    LineRange { start: u64, end: u64, hash: Vec<u8>, children: Vec<DiffNodeTextLines> },
    NoChange(Box<DiffNodeTextLines>),
    Added(Box<DiffNodeTextLines>),
    Deleted(Box<DiffNodeTextLines>),
    Modified { old: Box<DiffNodeTextLines>, new: Box<DiffNodeTextLines> },
}

/// A diff node over filesystem items: symlinks, binary files, text files
/// (carrying a nested line-level diff), directories, or a change wrapper
/// around any of them.
#[derive(Debug)]
pub enum DiffNodeFsItem {
    Symlink { path: String, ref_path: String, hash: Vec<u8>, size: u64, modified: u64 },
    BinaryFile { path: String, hash: Vec<u8>, size: u64, modified: u64 },
    TextFile {
        path: String,
        hash: Vec<u8>,
        size: u64,
        modified: u64,
        location_node: Box<DiffNodeTextLines>,
    },
    Dir { path: String, hash: Vec<u8>, children: Vec<DiffNodeFsItem> },
    NoChange(Box<DiffNodeFsItem>),
    Added(Box<DiffNodeFsItem>),
    Deleted(Box<DiffNodeFsItem>),
    Modified { old: Box<DiffNodeFsItem>, new: Box<DiffNodeFsItem> },
}

/// Either kind of diff node.
#[derive(Debug)]
pub enum DiffNode {
    FsItem(DiffNodeFsItem),
    TextLines(DiffNodeTextLines),
}

// ---------------------------------------------------------------------------
// The models the contracts speak of.
// ---------------------------------------------------------------------------

/// The model of a text-line diff node.
pub enum TextLinesModel {
    Line { line_num: u64, content: Seq<u8>, hash: Seq<u8> },
    LineRange { start: u64, end: u64, hash: Seq<u8>, children: Seq<TextLinesModel> },
    NoChange(Box<TextLinesModel>),
    Added(Box<TextLinesModel>),
    Deleted(Box<TextLinesModel>),
    Modified { old: Box<TextLinesModel>, new: Box<TextLinesModel> },
}

/// The model of a filesystem-item diff node.
pub enum FsItemModel {
    Symlink { path: Seq<char>, ref_path: Seq<char>, hash: Seq<u8>, size: u64, modified: u64 },
    BinaryFile { path: Seq<char>, hash: Seq<u8>, size: u64, modified: u64 },
    TextFile {
        path: Seq<char>,
        hash: Seq<u8>,
        size: u64,
        modified: u64,
        location_node: Box<TextLinesModel>,
    },
    Dir { path: Seq<char>, hash: Seq<u8>, children: Seq<FsItemModel> },
    NoChange(Box<FsItemModel>),
    Added(Box<FsItemModel>),
    Deleted(Box<FsItemModel>),
    Modified { old: Box<FsItemModel>, new: Box<FsItemModel> },
}

/// The models of a run of text-line nodes.
pub open spec fn text_views(s: Seq<DiffNodeTextLines>) -> Seq<TextLinesModel>
    decreases s,
{
    if s.len() == 0 {
        Seq::empty()
    } else {
        seq![s.first().model()] + text_views(s.drop_first())
    }
}

/// The models of a run of filesystem-item nodes.
pub open spec fn fs_views(s: Seq<DiffNodeFsItem>) -> Seq<FsItemModel>
    decreases s,
{
    if s.len() == 0 {
        Seq::empty()
    } else {
        seq![s.first().model()] + fs_views(s.drop_first())
    }
}

impl DiffNodeTextLines {
    /// The mathematical model of the node.
    pub open spec fn model(&self) -> TextLinesModel
        decreases *self,
    {
        match self {
            DiffNodeTextLines::Line { line_num, content, hash } => TextLinesModel::Line {
                line_num: *line_num,
                content: content@,
                hash: hash@,
            },
            DiffNodeTextLines::LineRange { start, end, hash, children } => {
                TextLinesModel::LineRange {
                    start: *start,
                    end: *end,
                    hash: hash@,
                    children: text_views(children@),
                }
            },
            DiffNodeTextLines::NoChange(node) => TextLinesModel::NoChange(Box::new(node.model())),
            DiffNodeTextLines::Added(node) => TextLinesModel::Added(Box::new(node.model())),
            DiffNodeTextLines::Deleted(node) => TextLinesModel::Deleted(Box::new(node.model())),
            DiffNodeTextLines::Modified { old, new } => TextLinesModel::Modified {
                old: Box::new(old.model()),
                new: Box::new(new.model()),
            },
        }
    }
}

impl View for DiffNodeTextLines {
    type V = TextLinesModel;

    open spec fn view(&self) -> TextLinesModel {
        self.model()
    }
}

impl DiffNodeFsItem {
    /// The mathematical model of the node.
    pub open spec fn model(&self) -> FsItemModel
        decreases *self,
    {
        match self {
            DiffNodeFsItem::Symlink { path, ref_path, hash, size, modified } => {
                FsItemModel::Symlink {
                    path: path@,
                    ref_path: ref_path@,
                    hash: hash@,
                    size: *size,
                    modified: *modified,
                }
            },
            DiffNodeFsItem::BinaryFile { path, hash, size, modified } => FsItemModel::BinaryFile {
                path: path@,
                hash: hash@,
                size: *size,
                modified: *modified,
            },
            DiffNodeFsItem::TextFile { path, hash, size, modified, location_node } => {
                FsItemModel::TextFile {
                    path: path@,
                    hash: hash@,
                    size: *size,
                    modified: *modified,
                    location_node: Box::new(location_node.model()),
                }
            },
            DiffNodeFsItem::Dir { path, hash, children } => FsItemModel::Dir {
                path: path@,
                hash: hash@,
                children: fs_views(children@),
            },
            DiffNodeFsItem::NoChange(node) => FsItemModel::NoChange(Box::new(node.model())),
            DiffNodeFsItem::Added(node) => FsItemModel::Added(Box::new(node.model())),
            DiffNodeFsItem::Deleted(node) => FsItemModel::Deleted(Box::new(node.model())),
            DiffNodeFsItem::Modified { old, new } => FsItemModel::Modified {
                old: Box::new(old.model()),
                new: Box::new(new.model()),
            },
        }
    }
}

impl View for DiffNodeFsItem {
    type V = FsItemModel;

    open spec fn view(&self) -> FsItemModel {
        self.model()
    }
}

pub proof fn lemma_text_views(s: Seq<DiffNodeTextLines>)
    ensures
        text_views(s).len() == s.len(),
        forall|i: int| 0 <= i < s.len() ==> text_views(s)[i] == (#[trigger] s[i])@,
    decreases s.len(),
{
    if s.len() != 0 {
        lemma_text_views(s.drop_first());
        assert forall|i: int| 0 <= i < s.len() implies text_views(s)[i] == (#[trigger] s[i])@ by {
            if i > 0 {
                assert(text_views(s)[i] == text_views(s.drop_first())[i - 1]);
                assert(s.drop_first()[i - 1] == s[i]);
            }
        }
    }
}

pub proof fn lemma_text_views_push(s: Seq<DiffNodeTextLines>, e: DiffNodeTextLines)
    ensures
        text_views(s.push(e)) == text_views(s).push(e@),
    decreases s.len(),
{
    let ext = s.push(e);
    if s.len() == 0 {
        assert(ext.first() == e);
        assert(ext.drop_first() =~= Seq::<DiffNodeTextLines>::empty());
        assert(s =~= Seq::<DiffNodeTextLines>::empty());
        assert(text_views(Seq::<DiffNodeTextLines>::empty()) == Seq::<TextLinesModel>::empty());
        assert(text_views(ext) =~= text_views(s).push(e@));
    } else {
        assert(ext.first() == s.first());
        assert(ext.drop_first() =~= s.drop_first().push(e));
        lemma_text_views_push(s.drop_first(), e);
        assert(text_views(ext) =~= text_views(s).push(e@));
    }
}

pub proof fn lemma_fs_views_push(s: Seq<DiffNodeFsItem>, e: DiffNodeFsItem)
    ensures
        fs_views(s.push(e)) == fs_views(s).push(e@),
    decreases s.len(),
{
    let ext = s.push(e);
    if s.len() == 0 {
        assert(ext.first() == e);
        assert(ext.drop_first() =~= Seq::<DiffNodeFsItem>::empty());
        assert(s =~= Seq::<DiffNodeFsItem>::empty());
        assert(fs_views(Seq::<DiffNodeFsItem>::empty()) == Seq::<FsItemModel>::empty());
        assert(fs_views(ext) =~= fs_views(s).push(e@));
    } else {
        assert(ext.first() == s.first());
        assert(ext.drop_first() =~= s.drop_first().push(e));
        lemma_fs_views_push(s.drop_first(), e);
        assert(fs_views(ext) =~= fs_views(s).push(e@));
    }
}

pub proof fn lemma_fs_views(s: Seq<DiffNodeFsItem>)
    ensures
        fs_views(s).len() == s.len(),
        forall|i: int| 0 <= i < s.len() ==> fs_views(s)[i] == (#[trigger] s[i])@,
    decreases s.len(),
{
    if s.len() != 0 {
        lemma_fs_views(s.drop_first());
        assert forall|i: int| 0 <= i < s.len() implies fs_views(s)[i] == (#[trigger] s[i])@ by {
            if i > 0 {
                assert(fs_views(s)[i] == fs_views(s.drop_first())[i - 1]);
                assert(s.drop_first()[i - 1] == s[i]);
            }
        }
    }
}

// ---------------------------------------------------------------------------
// History and identity over the models.
// ---------------------------------------------------------------------------

impl TextLinesModel {
    /// A node that is no change wrapper.
    pub open spec fn is_base(self) -> bool {
        self is Line || self is LineRange
    }

    /// The hash the node stands for; a wrapper answers for its newest
    /// side.
    pub open spec fn hash_spec(self) -> Seq<u8>
        decreases self,
    {
        match self {
            TextLinesModel::Line { hash, .. } => hash,
            TextLinesModel::LineRange { hash, .. } => hash,
            TextLinesModel::NoChange(node) => node.hash_spec(),
            TextLinesModel::Added(node) => node.hash_spec(),
            TextLinesModel::Deleted(node) => node.hash_spec(),
            TextLinesModel::Modified { new, .. } => new.hash_spec(),
        }
    }

    pub open spec fn start_spec(self) -> u64
        decreases self,
    {
        match self {
            TextLinesModel::Line { line_num, .. } => line_num,
            TextLinesModel::LineRange { start, .. } => start,
            TextLinesModel::NoChange(node) => node.start_spec(),
            TextLinesModel::Added(node) => node.start_spec(),
            TextLinesModel::Deleted(node) => node.start_spec(),
            TextLinesModel::Modified { new, .. } => new.start_spec(),
        }
    }

    pub open spec fn end_spec(self) -> u64
        decreases self,
    {
        match self {
            TextLinesModel::Line { line_num, .. } => line_num,
            TextLinesModel::LineRange { end, .. } => end,
            TextLinesModel::NoChange(node) => node.end_spec(),
            TextLinesModel::Added(node) => node.end_spec(),
            TextLinesModel::Deleted(node) => node.end_spec(),
            TextLinesModel::Modified { new, .. } => new.end_spec(),
        }
    }

    /// The previous version this node supersedes: the old side of a
    /// modification.  A `NoChange` wrapper delegates, preserving history
    /// across re-applied diffs.
    pub open spec fn ancestor_spec(self) -> Option<TextLinesModel>
        decreases self,
    {
        match self {
            TextLinesModel::NoChange(node) => node.ancestor_spec(),
            TextLinesModel::Modified { old, .. } => Some(*old),
            _ => None,
        }
    }

    /// The newest materialised value in a chain of wrappers.
    pub open spec fn fold_spec(self) -> TextLinesModel
        decreases self,
    {
        match self {
            TextLinesModel::NoChange(node) => node.fold_spec(),
            TextLinesModel::Added(node) => node.fold_spec(),
            TextLinesModel::Deleted(node) => node.fold_spec(),
            TextLinesModel::Modified { new, .. } => new.fold_spec(),
            _ => self,
        }
    }

    /// `n` ancestor steps back, if the chain reaches that far.
    pub open spec fn ancestor_n_spec(self, n: nat) -> Option<TextLinesModel>
        decreases n,
    {
        if n == 0 {
            Some(self)
        } else {
            match self.ancestor_spec() {
                Some(a) => a.ancestor_n_spec((n - 1) as nat),
                None => None,
            }
        }
    }
}

impl FsItemModel {
    /// A node that is no change wrapper.
    pub open spec fn is_base(self) -> bool {
        self is Symlink || self is BinaryFile || self is TextFile || self is Dir
    }

    /// The hash the node stands for; a wrapper answers for its newest
    /// side.
    pub open spec fn hash_spec(self) -> Seq<u8>
        decreases self,
    {
        match self {
            FsItemModel::Symlink { hash, .. } => hash,
            FsItemModel::BinaryFile { hash, .. } => hash,
            FsItemModel::TextFile { hash, .. } => hash,
            FsItemModel::Dir { hash, .. } => hash,
            FsItemModel::NoChange(node) => node.hash_spec(),
            FsItemModel::Added(node) => node.hash_spec(),
            FsItemModel::Deleted(node) => node.hash_spec(),
            FsItemModel::Modified { new, .. } => new.hash_spec(),
        }
    }

    /// The path the node stands at; a wrapper answers for its newest
    /// side.
    pub open spec fn path_spec(self) -> Seq<char>
        decreases self,
    {
        match self {
            FsItemModel::Symlink { path, .. } => path,
            FsItemModel::BinaryFile { path, .. } => path,
            FsItemModel::TextFile { path, .. } => path,
            FsItemModel::Dir { path, .. } => path,
            FsItemModel::NoChange(node) => node.path_spec(),
            FsItemModel::Added(node) => node.path_spec(),
            FsItemModel::Deleted(node) => node.path_spec(),
            FsItemModel::Modified { new, .. } => new.path_spec(),
        }
    }

    /// The previous version this node supersedes.
    pub open spec fn ancestor_spec(self) -> Option<FsItemModel>
        decreases self,
    {
        match self {
            FsItemModel::NoChange(node) => node.ancestor_spec(),
            FsItemModel::Modified { old, .. } => Some(*old),
            _ => None,
        }
    }

    /// The newest materialised value in a chain of wrappers.
    pub open spec fn fold_spec(self) -> FsItemModel
        decreases self,
    {
        match self {
            FsItemModel::NoChange(node) => node.fold_spec(),
            FsItemModel::Added(node) => node.fold_spec(),
            FsItemModel::Deleted(node) => node.fold_spec(),
            FsItemModel::Modified { new, .. } => new.fold_spec(),
            _ => self,
        }
    }

    /// `n` ancestor steps back, if the chain reaches that far.
    pub open spec fn ancestor_n_spec(self, n: nat) -> Option<FsItemModel>
        decreases n,
    {
        if n == 0 {
            Some(self)
        } else {
            match self.ancestor_spec() {
                Some(a) => a.ancestor_n_spec((n - 1) as nat),
                None => None,
            }
        }
    }
}

impl FsItemModel {
    /// The node's size: a file's own, a directory's the sum over its
    /// children; a wrapper answers for its newest side.
    pub open spec fn size_spec(self) -> nat
        decreases self,
    {
        match self {
            FsItemModel::Symlink { size, .. } => size as nat,
            FsItemModel::BinaryFile { size, .. } => size as nat,
            FsItemModel::TextFile { size, .. } => size as nat,
            FsItemModel::Dir { children, .. } => sum_sizes(children),
            FsItemModel::NoChange(node) => node.size_spec(),
            FsItemModel::Added(node) => node.size_spec(),
            FsItemModel::Deleted(node) => node.size_spec(),
            FsItemModel::Modified { new, .. } => new.size_spec(),
        }
    }

    /// The node's last-modified time: a file's own, a directory's the
    /// maximum over its children (zero for an empty directory); a wrapper
    /// answers for its newest side.
    pub open spec fn modified_spec(self) -> u64
        decreases self,
    {
        match self {
            FsItemModel::Symlink { modified, .. } => modified,
            FsItemModel::BinaryFile { modified, .. } => modified,
            FsItemModel::TextFile { modified, .. } => modified,
            FsItemModel::Dir { children, .. } => max_modified(children),
            FsItemModel::NoChange(node) => node.modified_spec(),
            FsItemModel::Added(node) => node.modified_spec(),
            FsItemModel::Deleted(node) => node.modified_spec(),
            FsItemModel::Modified { new, .. } => new.modified_spec(),
        }
    }
}

/// The summed size of a run of nodes.
pub open spec fn sum_sizes(children: Seq<FsItemModel>) -> nat
    decreases children,
{
    if children.len() == 0 {
        0
    } else {
        children.first().size_spec() + sum_sizes(children.drop_first())
    }
}

/// The newest modification time of a run of nodes, zero when empty.
pub open spec fn max_modified(children: Seq<FsItemModel>) -> u64
    decreases children,
{
    if children.len() == 0 {
        0
    } else {
        let rest = max_modified(children.drop_first());
        if children.first().modified_spec() >= rest {
            children.first().modified_spec()
        } else {
            rest
        }
    }
}

pub proof fn lemma_sum_sizes_split(s: Seq<FsItemModel>, i: int)
    requires
        0 <= i <= s.len(),
    ensures
        sum_sizes(s) == sum_sizes(s.take(i)) + sum_sizes(s.skip(i)),
    decreases i,
{
    if i == 0 {
        assert(s.take(0) =~= Seq::<FsItemModel>::empty());
        assert(s.skip(0) =~= s);
    } else {
        assert(s.take(i).first() == s.first());
        assert(s.take(i).drop_first() =~= s.drop_first().take(i - 1));
        assert(s.skip(i) =~= s.drop_first().skip(i - 1));
        lemma_sum_sizes_split(s.drop_first(), i - 1);
    }
}

pub proof fn lemma_sum_sizes_push(s: Seq<FsItemModel>, e: FsItemModel)
    ensures
        sum_sizes(s.push(e)) == sum_sizes(s) + e.size_spec(),
    decreases s.len(),
{
    let ext = s.push(e);
    if s.len() == 0 {
        assert(ext.first() == e);
        assert(ext.drop_first() =~= Seq::<FsItemModel>::empty());
        assert(s =~= Seq::<FsItemModel>::empty());
    } else {
        assert(ext.first() == s.first());
        assert(ext.drop_first() =~= s.drop_first().push(e));
        lemma_sum_sizes_push(s.drop_first(), e);
    }
}

pub proof fn lemma_max_modified_push(s: Seq<FsItemModel>, e: FsItemModel)
    ensures
        max_modified(s.push(e)) == (if e.modified_spec() >= max_modified(s) {
            e.modified_spec()
        } else {
            max_modified(s)
        }),
    decreases s.len(),
{
    let ext = s.push(e);
    if s.len() == 0 {
        assert(ext.first() == e);
        assert(ext.drop_first() =~= Seq::<FsItemModel>::empty());
        assert(s =~= Seq::<FsItemModel>::empty());
    } else {
        assert(ext.first() == s.first());
        assert(ext.drop_first() =~= s.drop_first().push(e));
        lemma_max_modified_push(s.drop_first(), e);
    }
}

// ---------------------------------------------------------------------------
// History laws: folding a chain of nested modifications.
// ---------------------------------------------------------------------------

/// A chain of `n` modifications nested through the new side.
pub open spec fn new_side_chain(d: FsItemModel, n: nat) -> bool
    decreases n,
{
    if n == 0 {
        d.is_base()
    } else {
        match d {
            FsItemModel::Modified { new, .. } => new_side_chain(*new, (n - 1) as nat),
            _ => false,
        }
    }
}

/// The innermost new value of such a chain.
pub open spec fn new_side_end(d: FsItemModel, n: nat) -> FsItemModel
    decreases n,
{
    if n == 0 {
        d
    } else {
        match d {
            FsItemModel::Modified { new, .. } => new_side_end(*new, (n - 1) as nat),
            _ => d,
        }
    }
}

/// Law (history folding): on a chain of modifications nested through
/// the new side, `fold_history` reaches exactly the innermost new value.
pub proof fn lemma_fold_history_chain(d: FsItemModel, n: nat)
    requires
        new_side_chain(d, n),
    ensures
        d.fold_spec() == new_side_end(d, n),
    decreases n,
{
    if n > 0 {
        match d {
            FsItemModel::Modified { new, .. } => {
                lemma_fold_history_chain(*new, (n - 1) as nat);
            },
            _ => {},
        }
    }
}

/// A chain of `n` modifications nested through the old side, ending in a
/// base node.
pub open spec fn old_side_chain(d: FsItemModel, n: nat) -> bool
    decreases n,
{
    if n == 0 {
        d.is_base()
    } else {
        match d {
            FsItemModel::Modified { old, .. } => old_side_chain(*old, (n - 1) as nat),
            _ => false,
        }
    }
}

/// The oldest value of such a chain.
pub open spec fn old_side_end(d: FsItemModel, n: nat) -> FsItemModel
    decreases n,
{
    if n == 0 {
        d
    } else {
        match d {
            FsItemModel::Modified { old, .. } => old_side_end(*old, (n - 1) as nat),
            _ => d,
        }
    }
}

/// Law (ancestor walking): on a chain of modifications nested through
/// the old side, walking all the steps reaches the oldest version, and
/// one step more exhausts the chain.
pub proof fn lemma_ancestor_chain(d: FsItemModel, n: nat)
    requires
        old_side_chain(d, n),
    ensures
        d.ancestor_n_spec(n) == Some(old_side_end(d, n)),
        old_side_end(d, n).is_base(),
        d.ancestor_n_spec(n + 1) is None,
    decreases n,
{
    if n == 0 {
        assert(d.ancestor_n_spec(0) == Some(d));
        assert(d.ancestor_spec() is None);
        assert(d.ancestor_n_spec(1) is None);
    } else {
        match d {
            FsItemModel::Modified { old, .. } => {
                lemma_ancestor_chain(*old, (n - 1) as nat);
            },
            _ => {},
        }
    }
}

// ---------------------------------------------------------------------------
// Executable operations on text-line nodes.
// ---------------------------------------------------------------------------

impl DiffNodeTextLines {
    /// Deep copy, preserving the model.
    #[verifier::loop_isolation(false)]
    pub fn duplicate(&self) -> (r: Self)
        ensures
            r@ == self@,
        decreases *self,
    {
        match self {
            DiffNodeTextLines::Line { line_num, content, hash } => DiffNodeTextLines::Line {
                line_num: *line_num,
                content: clone_hash(content),
                hash: clone_hash(hash),
            },
            DiffNodeTextLines::LineRange { start, end, hash, children } => {
                let mut cs: Vec<DiffNodeTextLines> = Vec::new();
                let n = children.len();
                for i in 0..n
                    invariant
                        n == children@.len(),
                        cs@.len() == i,
                        forall|j: int| 0 <= j < i ==> (#[trigger] cs@[j])@ == children@[j]@,
                {
                    cs.push(children[i].duplicate());
                }
                proof {
                    lemma_text_views(cs@);
                    lemma_text_views(children@);
                    assert forall|k: int| 0 <= k < text_views(cs@).len() implies text_views(
                        cs@,
                    )[k] == text_views(children@)[k] by {
                        assert(text_views(cs@)[k] == cs@[k]@);
                        assert(text_views(children@)[k] == children@[k]@);
                    }
                    assert(text_views(cs@) =~= text_views(children@));
                }
                DiffNodeTextLines::LineRange {
                    start: *start,
                    end: *end,
                    hash: clone_hash(hash),
                    children: cs,
                }
            },
            DiffNodeTextLines::NoChange(node) => DiffNodeTextLines::NoChange(
                Box::new(node.duplicate()),
            ),
            DiffNodeTextLines::Added(node) => DiffNodeTextLines::Added(Box::new(node.duplicate())),
            DiffNodeTextLines::Deleted(node) => DiffNodeTextLines::Deleted(
                Box::new(node.duplicate()),
            ),
            DiffNodeTextLines::Modified { old, new } => DiffNodeTextLines::Modified {
                old: Box::new(old.duplicate()),
                new: Box::new(new.duplicate()),
            },
        }
    }

    pub fn get_start_line_num(&self) -> (r: u64)
        ensures
            r == self@.start_spec(),
        decreases *self,
    {
        match self {
            DiffNodeTextLines::Line { line_num, .. } => *line_num,
            DiffNodeTextLines::LineRange { start, .. } => *start,
            DiffNodeTextLines::NoChange(node) => node.get_start_line_num(),
            DiffNodeTextLines::Added(node) => node.get_start_line_num(),
            DiffNodeTextLines::Deleted(node) => node.get_start_line_num(),
            DiffNodeTextLines::Modified { new, .. } => new.get_start_line_num(),
        }
    }

    pub fn get_end_line_num(&self) -> (r: u64)
        ensures
            r == self@.end_spec(),
        decreases *self,
    {
        match self {
            DiffNodeTextLines::Line { line_num, .. } => *line_num,
            DiffNodeTextLines::LineRange { end, .. } => *end,
            DiffNodeTextLines::NoChange(node) => node.get_end_line_num(),
            DiffNodeTextLines::Added(node) => node.get_end_line_num(),
            DiffNodeTextLines::Deleted(node) => node.get_end_line_num(),
            DiffNodeTextLines::Modified { new, .. } => new.get_end_line_num(),
        }
    }

    pub fn get_hash(&self) -> (r: &Vec<u8>)
        ensures
            r@ == self@.hash_spec(),
        decreases *self,
    {
        match self {
            DiffNodeTextLines::Line { hash, .. } => hash,
            DiffNodeTextLines::LineRange { hash, .. } => hash,
            DiffNodeTextLines::NoChange(node) => node.get_hash(),
            DiffNodeTextLines::Added(node) => node.get_hash(),
            DiffNodeTextLines::Deleted(node) => node.get_hash(),
            DiffNodeTextLines::Modified { new, .. } => new.get_hash(),
        }
    }

    pub fn get_ancestor(&self) -> (r: Option<&Self>)
        ensures
            match r {
                Some(a) => self@.ancestor_spec() == Some(a@),
                None => self@.ancestor_spec() is None,
            },
        decreases *self,
    {
        match self {
            DiffNodeTextLines::NoChange(node) => node.get_ancestor(),
            DiffNodeTextLines::Modified { old, .. } => Some(&**old),
            _ => None,
        }
    }

    pub fn fold_history(&self) -> (r: &Self)
        ensures
            r@ == self@.fold_spec(),
        decreases *self,
    {
        match self {
            DiffNodeTextLines::NoChange(node) => node.fold_history(),
            DiffNodeTextLines::Added(node) => node.fold_history(),
            DiffNodeTextLines::Deleted(node) => node.fold_history(),
            DiffNodeTextLines::Modified { new, .. } => new.fold_history(),
            _ => self,
        }
    }

    pub fn get_ancestor_n(&self, n: usize) -> (r: Option<&Self>)
        ensures
            match r {
                Some(a) => self@.ancestor_n_spec(n as nat) == Some(a@),
                None => self@.ancestor_n_spec(n as nat) is None,
            },
        decreases n,
    {
        if n == 0 {
            Some(self)
        } else {
            match self.get_ancestor() {
                Some(a) => a.get_ancestor_n(n - 1),
                None => None,
            }
        }
    }

    /// A full node carries no history of its own.
    pub fn is_full_node(&self) -> (r: bool)
        ensures
            r == (self@.ancestor_spec() is None),
    {
        match self.get_ancestor() {
            Some(_) => false,
            None => true,
        }
    }

    /// An incremental node supersedes an ancestor.
    pub fn is_incremental_node(&self) -> (r: bool)
        ensures
            r == (self@.ancestor_spec() is Some),
    {
        match self.get_ancestor() {
            Some(_) => true,
            None => false,
        }
    }
}

// ---------------------------------------------------------------------------
// Executable operations on filesystem-item nodes.
// ---------------------------------------------------------------------------

impl DiffNodeFsItem {
    /// Deep copy, preserving the model.
    #[verifier::loop_isolation(false)]
    pub fn duplicate(&self) -> (r: Self)
        ensures
            r@ == self@,
        decreases *self,
    {
        match self {
            DiffNodeFsItem::Symlink { path, ref_path, hash, size, modified } => {
                DiffNodeFsItem::Symlink {
                    path: path.clone(),
                    ref_path: ref_path.clone(),
                    hash: clone_hash(hash),
                    size: *size,
                    modified: *modified,
                }
            },
            DiffNodeFsItem::BinaryFile { path, hash, size, modified } => {
                DiffNodeFsItem::BinaryFile {
                    path: path.clone(),
                    hash: clone_hash(hash),
                    size: *size,
                    modified: *modified,
                }
            },
            DiffNodeFsItem::TextFile { path, hash, size, modified, location_node } => {
                DiffNodeFsItem::TextFile {
                    path: path.clone(),
                    hash: clone_hash(hash),
                    size: *size,
                    modified: *modified,
                    location_node: Box::new(location_node.duplicate()),
                }
            },
            DiffNodeFsItem::Dir { path, hash, children } => {
                let mut cs: Vec<DiffNodeFsItem> = Vec::new();
                let n = children.len();
                for i in 0..n
                    invariant
                        n == children@.len(),
                        cs@.len() == i,
                        forall|j: int| 0 <= j < i ==> (#[trigger] cs@[j])@ == children@[j]@,
                {
                    cs.push(children[i].duplicate());
                }
                proof {
                    lemma_fs_views(cs@);
                    lemma_fs_views(children@);
                    assert forall|k: int| 0 <= k < fs_views(cs@).len() implies fs_views(cs@)[k]
                        == fs_views(children@)[k] by {
                        assert(fs_views(cs@)[k] == cs@[k]@);
                        assert(fs_views(children@)[k] == children@[k]@);
                    }
                    assert(fs_views(cs@) =~= fs_views(children@));
                }
                DiffNodeFsItem::Dir { path: path.clone(), hash: clone_hash(hash), children: cs }
            },
            DiffNodeFsItem::NoChange(node) => DiffNodeFsItem::NoChange(Box::new(node.duplicate())),
            DiffNodeFsItem::Added(node) => DiffNodeFsItem::Added(Box::new(node.duplicate())),
            DiffNodeFsItem::Deleted(node) => DiffNodeFsItem::Deleted(Box::new(node.duplicate())),
            DiffNodeFsItem::Modified { old, new } => DiffNodeFsItem::Modified {
                old: Box::new(old.duplicate()),
                new: Box::new(new.duplicate()),
            },
        }
    }

    pub fn get_hash(&self) -> (r: &Vec<u8>)
        ensures
            r@ == self@.hash_spec(),
        decreases *self,
    {
        match self {
            DiffNodeFsItem::Symlink { hash, .. } => hash,
            DiffNodeFsItem::BinaryFile { hash, .. } => hash,
            DiffNodeFsItem::TextFile { hash, .. } => hash,
            DiffNodeFsItem::Dir { hash, .. } => hash,
            DiffNodeFsItem::NoChange(node) => node.get_hash(),
            DiffNodeFsItem::Added(node) => node.get_hash(),
            DiffNodeFsItem::Deleted(node) => node.get_hash(),
            DiffNodeFsItem::Modified { new, .. } => new.get_hash(),
        }
    }

    pub fn get_path(&self) -> (r: &str)
        ensures
            r@ == self@.path_spec(),
        decreases *self,
    {
        match self {
            DiffNodeFsItem::Symlink { path, .. } => path.as_str(),
            DiffNodeFsItem::BinaryFile { path, .. } => path.as_str(),
            DiffNodeFsItem::TextFile { path, .. } => path.as_str(),
            DiffNodeFsItem::Dir { path, .. } => path.as_str(),
            DiffNodeFsItem::NoChange(node) => node.get_path(),
            DiffNodeFsItem::Added(node) => node.get_path(),
            DiffNodeFsItem::Deleted(node) => node.get_path(),
            DiffNodeFsItem::Modified { new, .. } => new.get_path(),
        }
    }

    /// The node's size; a directory's folds its children's sizes by sum.
    #[verifier::loop_isolation(false)]
    pub fn get_size(&self) -> (r: u64)
        requires
            self@.size_spec() <= u64::MAX,
        ensures
            r as nat == self@.size_spec(),
        decreases *self,
    {
        match self {
            DiffNodeFsItem::Symlink { size, .. } => *size,
            DiffNodeFsItem::BinaryFile { size, .. } => *size,
            DiffNodeFsItem::TextFile { size, .. } => *size,
            DiffNodeFsItem::Dir { children, .. } => {
                let ghost cvs = fs_views(children@);
                proof {
                    lemma_fs_views(children@);
                    assert(cvs.take(0) =~= Seq::<FsItemModel>::empty());
                }
                let mut acc: u64 = 0;
                let n = children.len();
                for i in 0..n
                    invariant
                        n == children@.len(),
                        acc as nat == sum_sizes(cvs.take(i as int)),
                {
                    proof {
                        lemma_sum_sizes_split(cvs, i as int);
                        assert(cvs.skip(i as int).first() == cvs[i as int]);
                        assert(sum_sizes(cvs.skip(i as int)) >= cvs[i as int].size_spec());
                        lemma_sum_sizes_push(cvs.take(i as int), cvs[i as int]);
                        assert(cvs.take(i as int).push(cvs[i as int]) =~= cvs.take(i + 1));
                        lemma_sum_sizes_split(cvs, i + 1);
                    }
                    let child_size = children[i].get_size();
                    acc = acc + child_size;
                }
                proof {
                    assert(cvs.take(n as int) =~= cvs);
                }
                acc
            },
            DiffNodeFsItem::NoChange(node) => node.get_size(),
            DiffNodeFsItem::Added(node) => node.get_size(),
            DiffNodeFsItem::Deleted(node) => node.get_size(),
            DiffNodeFsItem::Modified { new, .. } => new.get_size(),
        }
    }

    /// The node's last-modified time; a directory's folds its children's
    /// by maximum, zero when empty.
    #[verifier::loop_isolation(false)]
    pub fn get_modified(&self) -> (r: u64)
        ensures
            r == self@.modified_spec(),
        decreases *self,
    {
        match self {
            DiffNodeFsItem::Symlink { modified, .. } => *modified,
            DiffNodeFsItem::BinaryFile { modified, .. } => *modified,
            DiffNodeFsItem::TextFile { modified, .. } => *modified,
            DiffNodeFsItem::Dir { children, .. } => {
                let ghost cvs = fs_views(children@);
                proof {
                    lemma_fs_views(children@);
                    assert(cvs.take(0) =~= Seq::<FsItemModel>::empty());
                }
                let mut acc: u64 = 0;
                let n = children.len();
                for i in 0..n
                    invariant
                        n == children@.len(),
                        acc == max_modified(cvs.take(i as int)),
                {
                    proof {
                        lemma_max_modified_push(cvs.take(i as int), cvs[i as int]);
                        assert(cvs.take(i as int).push(cvs[i as int]) =~= cvs.take(i + 1));
                    }
                    let child_modified = children[i].get_modified();
                    if child_modified > acc {
                        acc = child_modified;
                    }
                }
                proof {
                    assert(cvs.take(n as int) =~= cvs);
                }
                acc
            },
            DiffNodeFsItem::NoChange(node) => node.get_modified(),
            DiffNodeFsItem::Added(node) => node.get_modified(),
            DiffNodeFsItem::Deleted(node) => node.get_modified(),
            DiffNodeFsItem::Modified { new, .. } => new.get_modified(),
        }
    }

    pub fn get_ancestor(&self) -> (r: Option<&Self>)
        ensures
            match r {
                Some(a) => self@.ancestor_spec() == Some(a@),
                None => self@.ancestor_spec() is None,
            },
        decreases *self,
    {
        match self {
            DiffNodeFsItem::NoChange(node) => node.get_ancestor(),
            DiffNodeFsItem::Modified { old, .. } => Some(&**old),
            _ => None,
        }
    }

    pub fn fold_history(&self) -> (r: &Self)
        ensures
            r@ == self@.fold_spec(),
        decreases *self,
    {
        match self {
            DiffNodeFsItem::NoChange(node) => node.fold_history(),
            DiffNodeFsItem::Added(node) => node.fold_history(),
            DiffNodeFsItem::Deleted(node) => node.fold_history(),
            DiffNodeFsItem::Modified { new, .. } => new.fold_history(),
            _ => self,
        }
    }

    pub fn get_ancestor_n(&self, n: usize) -> (r: Option<&Self>)
        ensures
            match r {
                Some(a) => self@.ancestor_n_spec(n as nat) == Some(a@),
                None => self@.ancestor_n_spec(n as nat) is None,
            },
        decreases n,
    {
        if n == 0 {
            Some(self)
        } else {
            match self.get_ancestor() {
                Some(a) => a.get_ancestor_n(n - 1),
                None => None,
            }
        }
    }

    /// A full node carries no history of its own.
    pub fn is_full_node(&self) -> (r: bool)
        ensures
            r == (self@.ancestor_spec() is None),
    {
        match self.get_ancestor() {
            Some(_) => false,
            None => true,
        }
    }

    /// An incremental node supersedes an ancestor.
    pub fn is_incremental_node(&self) -> (r: bool)
        ensures
            r == (self@.ancestor_spec() is Some),
    {
        match self.get_ancestor() {
            Some(_) => true,
            None => false,
        }
    }
}

// ---------------------------------------------------------------------------
// The line-level diff.
// ---------------------------------------------------------------------------

/// The new-side lines a span stands for: the member lines of an unchanged
/// range, the new line of a modification, an added line; a deleted line
/// contributes nothing.
pub open spec fn span_new_lines(span: TextLinesModel) -> Seq<TextLinesModel> {
    match span {
        TextLinesModel::NoChange(inner) => match *inner {
            TextLinesModel::LineRange { children, .. } => children,
            other => seq![other],
        },
        TextLinesModel::Added(inner) => seq![*inner],
        TextLinesModel::Deleted(_) => Seq::empty(),
        TextLinesModel::Modified { new, .. } => seq![*new],
        other => seq![other],
    }
}

/// The old-side lines a span stands for.  An unchanged range answers with
/// its members: they are hash-equal stand-ins for the old lines.
pub open spec fn span_old_lines(span: TextLinesModel) -> Seq<TextLinesModel> {
    match span {
        TextLinesModel::NoChange(inner) => match *inner {
            TextLinesModel::LineRange { children, .. } => children,
            other => seq![other],
        },
        TextLinesModel::Added(_) => Seq::empty(),
        TextLinesModel::Deleted(inner) => seq![*inner],
        TextLinesModel::Modified { old, .. } => seq![*old],
        other => seq![other],
    }
}

/// All new-side lines of a run of spans, in order.
pub open spec fn flatten_new(spans: Seq<TextLinesModel>) -> Seq<TextLinesModel>
    decreases spans.len(),
{
    if spans.len() == 0 {
        Seq::empty()
    } else {
        span_new_lines(spans.first()) + flatten_new(spans.drop_first())
    }
}

/// All old-side lines of a run of spans, in order.
pub open spec fn flatten_old(spans: Seq<TextLinesModel>) -> Seq<TextLinesModel>
    decreases spans.len(),
{
    if spans.len() == 0 {
        Seq::empty()
    } else {
        span_old_lines(spans.first()) + flatten_old(spans.drop_first())
    }
}

/// The hashes of a run of lines.
pub open spec fn line_hashes(s: Seq<TextLinesModel>) -> Seq<Seq<u8>> {
    s.map_values(|m: TextLinesModel| m.hash_spec())
}

pub proof fn lemma_flatten_new_push(spans: Seq<TextLinesModel>, s: TextLinesModel)
    ensures
        flatten_new(spans.push(s)) == flatten_new(spans) + span_new_lines(s),
    decreases spans.len(),
{
    let ext = spans.push(s);
    if spans.len() == 0 {
        assert(ext.first() == s);
        assert(ext.drop_first() =~= Seq::<TextLinesModel>::empty());
        assert(spans =~= Seq::<TextLinesModel>::empty());
        assert(flatten_new(Seq::<TextLinesModel>::empty()) == Seq::<TextLinesModel>::empty());
        assert(flatten_new(ext) =~= flatten_new(spans) + span_new_lines(s));
    } else {
        assert(ext.first() == spans.first());
        assert(ext.drop_first() =~= spans.drop_first().push(s));
        lemma_flatten_new_push(spans.drop_first(), s);
        assert(flatten_new(ext) =~= flatten_new(spans) + span_new_lines(s));
    }
}

pub proof fn lemma_flatten_old_push(spans: Seq<TextLinesModel>, s: TextLinesModel)
    ensures
        flatten_old(spans.push(s)) == flatten_old(spans) + span_old_lines(s),
    decreases spans.len(),
{
    let ext = spans.push(s);
    if spans.len() == 0 {
        assert(ext.first() == s);
        assert(ext.drop_first() =~= Seq::<TextLinesModel>::empty());
        assert(spans =~= Seq::<TextLinesModel>::empty());
        assert(flatten_old(Seq::<TextLinesModel>::empty()) == Seq::<TextLinesModel>::empty());
        assert(flatten_old(ext) =~= flatten_old(spans) + span_old_lines(s));
    } else {
        assert(ext.first() == spans.first());
        assert(ext.drop_first() =~= spans.drop_first().push(s));
        lemma_flatten_old_push(spans.drop_first(), s);
        assert(flatten_old(ext) =~= flatten_old(spans) + span_old_lines(s));
    }
}

/// Runs are coalesced maximally: no two adjacent spans are both
/// unchanged ranges.
pub open spec fn no_adjacent_unchanged(spans: Seq<TextLinesModel>) -> bool {
    forall|k: int|
        0 <= k < spans.len() - 1 ==> !((#[trigger] spans[k]) is NoChange && (
        #[trigger] spans[k + 1]) is NoChange)
}

/// A well-formed diff span: a change wrapper, never a bare node; a
/// modification relates hash-unequal sides; an unchanged range records
/// the combined hash of its member lines.
pub open spec fn span_ok(span: TextLinesModel) -> bool {
    &&& !span.is_base()
    &&& (match span {
        TextLinesModel::Modified { old, new } => old.hash_spec() != new.hash_spec(),
        _ => true,
    })
    &&& (match span {
        TextLinesModel::NoChange(inner) => match *inner {
            TextLinesModel::LineRange { hash, children, .. } => hash == crate::hashing::combine_of(
                line_hashes(children),
            ),
            _ => false,
        },
        _ => true,
    })
}

/// Computes the line-level diff of two files, given their lines with
/// per-line hashes.  Positions are compared pairwise: maximal runs of
/// hash-equal lines coalesce into one `NoChange` range (pruned, with the
/// combined hash of its members), differing positions become per-line
/// modifications, and surplus lines on either side are added or deleted.
#[verifier::loop_isolation(false)]
#[verifier::rlimit(100)]
pub fn diff_text_lines(
    old_lines: &Vec<DiffNodeTextLines>,
    new_lines: &Vec<DiffNodeTextLines>,
) -> (spans: Vec<DiffNodeTextLines>)
    ensures
        flatten_new(text_views(spans@)) == text_views(new_lines@),
        line_hashes(flatten_old(text_views(spans@))) == line_hashes(text_views(old_lines@)),
        forall|k: int| 0 <= k < spans@.len() ==> span_ok(#[trigger] text_views(spans@)[k]),
        no_adjacent_unchanged(text_views(spans@)),
{
    let oldn = old_lines.len();
    let newn = new_lines.len();
    let minn = if oldn < newn {
        oldn
    } else {
        newn
    };
    let mut spans: Vec<DiffNodeTextLines> = Vec::new();
    let mut run: Vec<DiffNodeTextLines> = Vec::new();
    let ghost ovs = text_views(old_lines@);
    let ghost nvs = text_views(new_lines@);
    proof {
        lemma_text_views(old_lines@);
        lemma_text_views(new_lines@);
    }
    let mut i: usize = 0;
    let mut rs: usize = 0;
    while i < minn
        invariant
            rs <= i <= minn,
            run@.len() == i - rs,
            forall|t: int| 0 <= t < run@.len() ==> (#[trigger] run@[t])@ == nvs[rs + t],
            forall|t: int| rs <= t < i ==> ovs[t].hash_spec() == nvs[t].hash_spec(),
            flatten_new(text_views(spans@)) =~= nvs.subrange(0, rs as int),
            line_hashes(flatten_old(text_views(spans@))) =~= line_hashes(
                ovs.subrange(0, rs as int),
            ),
            forall|k: int| 0 <= k < spans@.len() ==> span_ok(#[trigger] text_views(spans@)[k]),
            no_adjacent_unchanged(text_views(spans@)),
            spans@.len() > 0 ==> !(text_views(spans@).last() is NoChange),
        decreases minn - i,
    {
        let equal = crate::vc::hash_eq(old_lines[i].get_hash(), new_lines[i].get_hash());
        if equal {
            run.push(new_lines[i].duplicate());
            i = i + 1;
        } else {
            if run.len() > 0 {
                flush_run(&mut spans, run, Ghost(nvs), Ghost(ovs), Ghost(rs as int));
                run = Vec::new();
            }
            let old_dup = old_lines[i].duplicate();
            let new_dup = new_lines[i].duplicate();
            let ghost om = old_dup@;
            let ghost nm = new_dup@;
            let span = DiffNodeTextLines::Modified {
                old: Box::new(old_dup),
                new: Box::new(new_dup),
            };
            let ghost pre = text_views(spans@);
            let ghost pre_seq = spans@;
            spans.push(span);
            proof {
                assert(span@ == TextLinesModel::Modified {
                    old: Box::new(om),
                    new: Box::new(nm),
                });
                lemma_text_views(pre_seq);
                lemma_text_views_push(pre_seq, span);
                assert(pre.len() == pre_seq.len());
                assert(text_views(spans@) =~= pre.push(span@));
                lemma_flatten_new_push(pre, span@);
                lemma_flatten_old_push(pre, span@);
                assert(om == ovs[i as int]);
                assert(nm == nvs[i as int]);
                assert(span_new_lines(span@) =~= seq![nm]);
                assert(span_old_lines(span@) =~= seq![om]);
                assert(flatten_old(text_views(spans@)) =~= flatten_old(pre) + seq![om]);
                assert(flatten_old(pre).len() == line_hashes(flatten_old(pre)).len());
                assert(line_hashes(flatten_old(pre)).len() == i as int);
                assert(flatten_new(text_views(spans@)) =~= nvs.subrange(0, i + 1));
                assert(line_hashes(flatten_old(text_views(spans@))) =~= line_hashes(
                    ovs.subrange(0, i + 1),
                )) by {
                    let lhs = flatten_old(text_views(spans@));
                    let rhs = ovs.subrange(0, i + 1);
                    assert forall|t: int| 0 <= t < lhs.len() implies line_hashes(lhs)[t]
                        == line_hashes(rhs)[t] by {
                        assert(line_hashes(lhs)[t] == lhs[t].hash_spec());
                        assert(line_hashes(rhs)[t] == rhs[t].hash_spec());
                        if t < i {
                            assert(lhs[t] == flatten_old(pre)[t]);
                            assert(line_hashes(flatten_old(pre))[t] == line_hashes(
                                ovs.subrange(0, i as int),
                            )[t]);
                            assert(flatten_old(pre)[t].hash_spec() == ovs.subrange(
                                0,
                                i as int,
                            )[t].hash_spec());
                        } else {
                            assert(lhs[t] == om);
                        }
                    }
                }
                assert forall|k: int| 0 <= k < spans@.len() implies span_ok(
                    #[trigger] text_views(spans@)[k],
                ) by {
                    if k < spans@.len() - 1 {
                        assert(text_views(spans@)[k] == pre[k]);
                    } else {
                        assert(text_views(spans@)[k] == span@);
                        assert(span_ok(span@));
                    }
                }
                assert forall|q: int| 0 <= q < text_views(spans@).len() - 1 implies !((
                #[trigger] text_views(spans@)[q]) is NoChange && (#[trigger] text_views(
                    spans@,
                )[q + 1]) is NoChange) by {
                    if q < pre.len() - 1 {
                        assert(text_views(spans@)[q] == pre[q]);
                        assert(text_views(spans@)[q + 1] == pre[q + 1]);
                    } else {
                        assert(text_views(spans@)[q + 1] == span@);
                    }
                }
                assert(text_views(spans@).last() == span@);
            }
            i = i + 1;
            rs = i;
        }
    }
    if run.len() > 0 {
        flush_run(&mut spans, run, Ghost(nvs), Ghost(ovs), Ghost(rs as int));
    }
    // surplus new lines were added
    let mut j: usize = minn;
    while j < newn
        invariant
            minn <= j <= newn,
            flatten_new(text_views(spans@)) =~= nvs.subrange(0, j as int),
            line_hashes(flatten_old(text_views(spans@))) =~= line_hashes(
                ovs.subrange(0, minn as int),
            ),
            forall|k: int| 0 <= k < spans@.len() ==> span_ok(#[trigger] text_views(spans@)[k]),
            no_adjacent_unchanged(text_views(spans@)),
        decreases newn - j,
    {
        let new_dup = new_lines[j].duplicate();
        let ghost nm = new_dup@;
        let span = DiffNodeTextLines::Added(Box::new(new_dup));
        let ghost pre = text_views(spans@);
        let ghost pre_seq = spans@;
        spans.push(span);
        proof {
            assert(span@ == TextLinesModel::Added(Box::new(nm)));
            lemma_text_views(pre_seq);
            lemma_text_views_push(pre_seq, span);
            assert(pre.len() == pre_seq.len());
            assert(text_views(spans@) =~= pre.push(span@));
            lemma_flatten_new_push(pre, span@);
            lemma_flatten_old_push(pre, span@);
            assert(flatten_new(text_views(spans@)) =~= nvs.subrange(0, j + 1));
            assert(line_hashes(flatten_old(text_views(spans@))) =~= line_hashes(
                ovs.subrange(0, minn as int),
            ));
            assert forall|k: int| 0 <= k < spans@.len() implies span_ok(
                #[trigger] text_views(spans@)[k],
            ) by {
                if k < spans@.len() - 1 {
                    assert(text_views(spans@)[k] == pre[k]);
                } else {
                    assert(text_views(spans@)[k] == span@);
                    assert(span_ok(span@));
                }
            }
            assert forall|q: int| 0 <= q < text_views(spans@).len() - 1 implies !((
            #[trigger] text_views(spans@)[q]) is NoChange && (#[trigger] text_views(
                spans@,
            )[q + 1]) is NoChange) by {
                if q < pre.len() - 1 {
                    assert(text_views(spans@)[q] == pre[q]);
                    assert(text_views(spans@)[q + 1] == pre[q + 1]);
                } else {
                    assert(text_views(spans@)[q + 1] == span@);
                }
            }
        }
        j = j + 1;
    }
    // surplus old lines were deleted
    let mut t: usize = minn;
    while t < oldn
        invariant
            minn <= t <= oldn,
            flatten_new(text_views(spans@)) =~= nvs.subrange(0, newn as int),
            line_hashes(flatten_old(text_views(spans@))) =~= line_hashes(
                ovs.subrange(0, t as int),
            ),
            forall|k: int| 0 <= k < spans@.len() ==> span_ok(#[trigger] text_views(spans@)[k]),
            no_adjacent_unchanged(text_views(spans@)),
        decreases oldn - t,
    {
        let old_dup = old_lines[t].duplicate();
        let ghost om = old_dup@;
        let span = DiffNodeTextLines::Deleted(Box::new(old_dup));
        let ghost pre = text_views(spans@);
        let ghost pre_seq = spans@;
        spans.push(span);
        proof {
            assert(span@ == TextLinesModel::Deleted(Box::new(om)));
            lemma_text_views(pre_seq);
            lemma_text_views_push(pre_seq, span);
            assert(pre.len() == pre_seq.len());
            assert(text_views(spans@) =~= pre.push(span@));
            lemma_flatten_new_push(pre, span@);
            lemma_flatten_old_push(pre, span@);
            assert(flatten_new(text_views(spans@)) =~= nvs.subrange(0, newn as int));
            assert(line_hashes(flatten_old(text_views(spans@))) =~= line_hashes(
                ovs.subrange(0, t + 1),
            )) by {
                let lhs = flatten_old(text_views(spans@));
                let rhs = ovs.subrange(0, t + 1);
                assert(flatten_old(pre).len() == line_hashes(flatten_old(pre)).len());
                assert(line_hashes(flatten_old(pre)).len() == t as int);
                assert(span_old_lines(span@) =~= seq![om]);
                assert(lhs =~= flatten_old(pre) + seq![om]);
                assert(om == ovs[t as int]);
                assert forall|u: int| 0 <= u < lhs.len() implies line_hashes(lhs)[u]
                    == line_hashes(rhs)[u] by {
                    assert(line_hashes(lhs)[u] == lhs[u].hash_spec());
                    assert(line_hashes(rhs)[u] == rhs[u].hash_spec());
                    if u < t {
                        assert(lhs[u] == flatten_old(pre)[u]);
                        assert(line_hashes(flatten_old(pre))[u] == line_hashes(
                            ovs.subrange(0, t as int),
                        )[u]);
                        assert(flatten_old(pre)[u].hash_spec() == ovs.subrange(
                            0,
                            t as int,
                        )[u].hash_spec());
                    } else {
                        assert(lhs[u] == om);
                    }
                }
            }
            assert forall|k: int| 0 <= k < spans@.len() implies span_ok(
                #[trigger] text_views(spans@)[k],
            ) by {
                if k < spans@.len() - 1 {
                    assert(text_views(spans@)[k] == pre[k]);
                } else {
                    assert(text_views(spans@)[k] == span@);
                    assert(span_ok(span@));
                }
            }
            assert forall|q: int| 0 <= q < text_views(spans@).len() - 1 implies !((
            #[trigger] text_views(spans@)[q]) is NoChange && (#[trigger] text_views(
                spans@,
            )[q + 1]) is NoChange) by {
                if q < pre.len() - 1 {
                    assert(text_views(spans@)[q] == pre[q]);
                    assert(text_views(spans@)[q + 1] == pre[q + 1]);
                } else {
                    assert(text_views(spans@)[q + 1] == span@);
                }
            }
        }
        t = t + 1;
    }
    proof {
        assert(nvs.subrange(0, newn as int) =~= nvs);
        assert(ovs.subrange(0, oldn as int) =~= ovs);
        assert(flatten_new(text_views(spans@)) =~= nvs);
        assert(line_hashes(flatten_old(text_views(spans@))) =~= line_hashes(ovs));
    }
    spans
}

/// Coalesces a pending run of hash-equal lines into one `NoChange` range
/// span and appends it.
#[verifier::rlimit(100)]
fn flush_run(
    spans: &mut Vec<DiffNodeTextLines>,
    run: Vec<DiffNodeTextLines>,
    Ghost(nvs): Ghost<Seq<TextLinesModel>>,
    Ghost(ovs): Ghost<Seq<TextLinesModel>>,
    Ghost(rs): Ghost<int>,
)
    requires
        run@.len() > 0,
        0 <= rs,
        rs + run@.len() <= nvs.len(),
        rs + run@.len() <= ovs.len(),
        forall|t: int| 0 <= t < run@.len() ==> (#[trigger] run@[t])@ == nvs[rs + t],
        forall|t: int|
            rs <= t < rs + run@.len() ==> ovs[t].hash_spec() == nvs[t].hash_spec(),
        flatten_new(text_views(old(spans)@)) =~= nvs.subrange(0, rs),
        line_hashes(flatten_old(text_views(old(spans)@))) =~= line_hashes(ovs.subrange(0, rs)),
        forall|k: int|
            0 <= k < old(spans)@.len() ==> span_ok(#[trigger] text_views(old(spans)@)[k]),
        no_adjacent_unchanged(text_views(old(spans)@)),
        old(spans)@.len() > 0 ==> !(text_views(old(spans)@).last() is NoChange),
    ensures
        flatten_new(text_views(final(spans)@)) =~= nvs.subrange(0, rs + run@.len()),
        line_hashes(flatten_old(text_views(final(spans)@))) =~= line_hashes(
            ovs.subrange(0, rs + run@.len()),
        ),
        forall|k: int|
            0 <= k < final(spans)@.len() ==> span_ok(#[trigger] text_views(final(spans)@)[k]),
        no_adjacent_unchanged(text_views(final(spans)@)),
        final(spans)@.len() == old(spans)@.len() + 1,
        text_views(final(spans)@).last() is NoChange,
{
    let ghost run_seq = run@;
    proof {
        lemma_text_views(run_seq);
        assert forall|t: int| 0 <= t < run_seq.len() implies (#[trigger] run_seq[t])@ == nvs[rs
            + t] by {
            assert(run@[t]@ == nvs[rs + t]);
        }
        assert forall|t: int| 0 <= t < run_seq.len() implies text_views(run_seq)[t] == nvs[rs
            + t] by {
            assert(text_views(run_seq)[t] == run_seq[t]@);
        }
    }
    let start = run[0].get_start_line_num();
    let end = run[run.len() - 1].get_end_line_num();
    let mut hs: Vec<Vec<u8>> = Vec::new();
    let n = run.len();
    for u in 0..n
        invariant
            n == run_seq.len(),
            run@ == run_seq,
            hs.deep_view() =~= line_hashes(text_views(run_seq).subrange(0, u as int)),
    {
        let ghost pre_hs = hs.deep_view();
        hs.push(clone_hash(run[u].get_hash()));
        proof {
            lemma_text_views(run_seq);
            assert(hs.deep_view() =~~= pre_hs.push(run_seq[u as int]@.hash_spec()));
            assert(hs.deep_view() =~= line_hashes(text_views(run_seq).subrange(0, u + 1)));
        }
    }
    proof {
        assert(text_views(run_seq).subrange(0, n as int) =~= text_views(run_seq));
    }
    let combined = crate::hashing::combine_hashes(&hs);
    let ghost run_views = text_views(run_seq);
    let range = DiffNodeTextLines::LineRange { start, end, hash: combined, children: run };
    proof {
        assert(range@ == TextLinesModel::LineRange {
            start,
            end,
            hash: combined@,
            children: run_views,
        });
    }
    let span = DiffNodeTextLines::NoChange(Box::new(range));
    proof {
        assert(span@ == TextLinesModel::NoChange(Box::new(TextLinesModel::LineRange {
            start,
            end,
            hash: combined@,
            children: run_views,
        })));
    }
    let ghost pre = text_views(spans@);
    let ghost pre_seq = spans@;
    spans.push(span);
    proof {
        lemma_text_views(pre_seq);
        lemma_text_views_push(pre_seq, span);
        assert(pre.len() == pre_seq.len());
        assert(text_views(spans@) =~= pre.push(span@));
        lemma_flatten_new_push(pre, span@);
        lemma_flatten_old_push(pre, span@);
        assert(span_new_lines(span@) == run_views);
        assert(span_old_lines(span@) == run_views);
        assert(run_views =~= nvs.subrange(rs, rs + run_views.len())) by {
            lemma_text_views(run_seq);
        }
        assert(flatten_new(text_views(spans@)) =~= nvs.subrange(0, rs + run_views.len()));
        assert(line_hashes(flatten_old(text_views(spans@))) =~= line_hashes(
            ovs.subrange(0, rs + run_views.len()),
        )) by {
            let lhs = flatten_old(text_views(spans@));
            let rhs = ovs.subrange(0, rs + run_views.len());
            assert(flatten_old(pre).len() == line_hashes(flatten_old(pre)).len());
            assert(line_hashes(flatten_old(pre)).len() == rs);
            assert(lhs =~= flatten_old(pre) + run_views);
            assert forall|u: int| 0 <= u < lhs.len() implies line_hashes(lhs)[u] == line_hashes(
                rhs,
            )[u] by {
                assert(line_hashes(lhs)[u] == lhs[u].hash_spec());
                assert(line_hashes(rhs)[u] == rhs[u].hash_spec());
                if u < rs {
                    assert(lhs[u] == flatten_old(pre)[u]);
                    assert(line_hashes(flatten_old(pre))[u] == line_hashes(
                        ovs.subrange(0, rs),
                    )[u]);
                    assert(flatten_old(pre)[u].hash_spec() == ovs.subrange(
                        0,
                        rs,
                    )[u].hash_spec());
                } else {
                    assert(lhs[u] == run_views[u - rs]);
                    assert(run_views[u - rs] == nvs[u]);
                    assert(ovs[u].hash_spec() == nvs[u].hash_spec());
                }
            }
        }
        assert(span_ok(span@));
        assert forall|k: int| 0 <= k < spans@.len() implies span_ok(
            #[trigger] text_views(spans@)[k],
        ) by {
            if k < spans@.len() - 1 {
                assert(text_views(spans@)[k] == pre[k]);
            }
        }
        assert forall|q: int| 0 <= q < text_views(spans@).len() - 1 implies !((
        #[trigger] text_views(spans@)[q]) is NoChange && (#[trigger] text_views(
            spans@,
        )[q + 1]) is NoChange) by {
            if q < pre.len() - 1 {
                assert(text_views(spans@)[q] == pre[q]);
                assert(text_views(spans@)[q + 1] == pre[q + 1]);
            } else {
                assert(text_views(spans@)[q] == pre.last());
            }
        }
        assert(text_views(spans@).last() == span@);
    }
}

// ---------------------------------------------------------------------------
// The filesystem-level diff.
// ---------------------------------------------------------------------------

/// The lines a location node holds: the children of a range, or the node
/// itself.
pub open spec fn lines_of(t: TextLinesModel) -> Seq<TextLinesModel> {
    match t {
        TextLinesModel::LineRange { children, .. } => children,
        other => seq![other],
    }
}

/// A location node shaped for line diffing: a range of single lines.
pub open spec fn lines_shape(t: TextLinesModel) -> bool {
    t is LineRange && forall|i: int|
        0 <= i < lines_of(t).len() ==> (#[trigger] lines_of(t)[i]) is Line
}

/// What the line-level diff of two text files' location nodes must be: a
/// range with the new node's bounds and hash whose spans cover the new
/// lines exactly and the old lines by hash.
pub open spec fn line_diff_ok(
    oldloc: TextLinesModel,
    newloc: TextLinesModel,
    r: TextLinesModel,
) -> bool {
    match r {
        TextLinesModel::LineRange { start, end, hash, children } => {
            &&& start == newloc.start_spec()
            &&& end == newloc.end_spec()
            &&& hash == newloc.hash_spec()
            &&& flatten_new(children) == lines_of(newloc)
            &&& line_hashes(flatten_old(children)) == line_hashes(lines_of(oldloc))
            &&& forall|k: int| 0 <= k < children.len() ==> span_ok(#[trigger] children[k])
            &&& no_adjacent_unchanged(children)
        },
        _ => false,
    }
}

/// The first child standing at a path, if any.
pub open spec fn child_with_path(children: Seq<FsItemModel>, path: Seq<char>) -> Option<
    FsItemModel,
>
    decreases children.len(),
{
    if children.len() == 0 {
        None
    } else if children.first().path_spec() == path {
        Some(children.first())
    } else {
        child_with_path(children.drop_first(), path)
    }
}

/// The old children whose paths are gone from the new listing, in order.
pub open spec fn deleted_children(oldcs: Seq<FsItemModel>, newcs: Seq<FsItemModel>) -> Seq<
    FsItemModel,
>
    decreases oldcs.len(),
{
    if oldcs.len() == 0 {
        Seq::empty()
    } else {
        (if child_with_path(newcs, oldcs.first().path_spec()) is None {
            seq![oldcs.first()]
        } else {
            Seq::empty()
        }) + deleted_children(oldcs.drop_first(), newcs)
    }
}

pub proof fn lemma_deleted_children_push(
    oldcs: Seq<FsItemModel>,
    e: FsItemModel,
    newcs: Seq<FsItemModel>,
)
    ensures
        deleted_children(oldcs.push(e), newcs) == deleted_children(oldcs, newcs) + (
        if child_with_path(newcs, e.path_spec()) is None {
            seq![e]
        } else {
            Seq::<FsItemModel>::empty()
        }),
    decreases oldcs.len(),
{
    let ext = oldcs.push(e);
    let tail = if child_with_path(newcs, e.path_spec()) is None {
        seq![e]
    } else {
        Seq::<FsItemModel>::empty()
    };
    if oldcs.len() == 0 {
        assert(ext.first() == e);
        assert(ext.drop_first() =~= Seq::<FsItemModel>::empty());
        assert(oldcs =~= Seq::<FsItemModel>::empty());
        assert(deleted_children(Seq::<FsItemModel>::empty(), newcs)
            == Seq::<FsItemModel>::empty());
        assert(deleted_children(ext, newcs) =~= deleted_children(oldcs, newcs) + tail);
    } else {
        assert(ext.first() == oldcs.first());
        assert(ext.drop_first() =~= oldcs.drop_first().push(e));
        lemma_deleted_children_push(oldcs.drop_first(), e, newcs);
        assert(deleted_children(ext, newcs) =~= deleted_children(oldcs, newcs) + tail);
    }
}

/// What the diff of a node pair must be.
///
/// - An absent old side yields `Added` around the new node.
/// - Equal hashes yield `NoChange` around the new node, with no
///   recursion: hash equality certifies subtree equality.
/// - Differing directories are modified, with children matched by path
///   diffed recursively, new-only paths added and old-only paths deleted.
/// - Differing text files are modified, with a line-level diff inside.
/// - Any other differing pair is a full replacement.
pub open spec fn diff_rel(old: Option<FsItemModel>, new: FsItemModel, r: FsItemModel) -> bool
    decreases new,
{
    match old {
        None => match r {
            FsItemModel::Added(inner) => *inner == new,
            _ => false,
        },
        Some(o) => {
            if o.hash_spec() == new.hash_spec() {
                match r {
                    FsItemModel::NoChange(inner) => *inner == new,
                    _ => false,
                }
            } else {
                match r {
                    FsItemModel::Modified { old: ro, new: rn } => {
                        &&& *ro == o
                        &&& (match (o, new) {
                            (
                                FsItemModel::Dir { children: ocs, .. },
                                FsItemModel::Dir { path: pn, hash: hn, children: ncs },
                            ) => {
                                match *rn {
                                    FsItemModel::Dir { path: rp, hash: rh, children: rcs } => {
                                        &&& rp == pn
                                        &&& rh == hn
                                        &&& rcs.len() == ncs.len() + deleted_children(
                                            ocs,
                                            ncs,
                                        ).len()
                                        &&& (forall|j: int|
                                            0 <= j < ncs.len() ==> diff_rel(
                                                child_with_path(ocs, ncs[j].path_spec()),
                                                ncs[j],
                                                #[trigger] rcs[j],
                                            ))
                                        &&& (forall|t: int|
                                            0 <= t < deleted_children(ocs, ncs).len() ==> (
                                            #[trigger] rcs[ncs.len() + t])
                                                == FsItemModel::Deleted(
                                                Box::new(deleted_children(ocs, ncs)[t]),
                                            ))
                                    },
                                    _ => false,
                                }
                            },
                            (
                                FsItemModel::TextFile { location_node: ol, .. },
                                FsItemModel::TextFile {
                                    path: pn,
                                    hash: hn,
                                    size: sn,
                                    modified: mn,
                                    location_node: nl,
                                },
                            ) => {
                                if lines_shape(*ol) && lines_shape(*nl) {
                                    match *rn {
                                        FsItemModel::TextFile {
                                            path: rp,
                                            hash: rh,
                                            size: rsz,
                                            modified: rm,
                                            location_node: rl,
                                        } => {
                                            &&& rp == pn
                                            &&& rh == hn
                                            &&& rsz == sn
                                            &&& rm == mn
                                            &&& line_diff_ok(*ol, *nl, *rl)
                                        },
                                        _ => false,
                                    }
                                } else {
                                    *rn == new
                                }
                            },
                            _ => *rn == new,
                        })
                    },
                    _ => false,
                }
            }
        },
    }
}

/// The first child standing at a path, if any.
fn find_child<'a>(children: &'a Vec<DiffNodeFsItem>, path: &str) -> (r: Option<
    &'a DiffNodeFsItem,
>)
    ensures
        match r {
            Some(c) => child_with_path(fs_views(children@), path@) == Some(c@),
            None => child_with_path(fs_views(children@), path@) is None,
        },
{
    let ghost cvs = fs_views(children@);
    proof {
        lemma_fs_views(children@);
        assert(cvs.skip(0) =~= cvs);
    }
    let n = children.len();
    let mut t: usize = 0;
    while t < n
        invariant
            t <= n,
            n == children@.len(),
            cvs == fs_views(children@),
            cvs.len() == n,
            forall|q: int| 0 <= q < n ==> cvs[q] == (#[trigger] children@[q])@,
            child_with_path(cvs, path@) == child_with_path(cvs.skip(t as int), path@),
        decreases n - t,
    {
        let ghost rest = cvs.skip(t as int);
        proof {
            assert(rest.first() == cvs[t as int]);
        }
        if str_eq(children[t].get_path(), path) {
            return Some(&children[t]);
        }
        proof {
            assert(rest.drop_first() =~= cvs.skip(t + 1));
        }
        t = t + 1;
    }
    proof {
        assert(cvs.skip(n as int) =~= Seq::<FsItemModel>::empty());
    }
    None
}

/// Whether every node is a single line.
fn all_lines(v: &Vec<DiffNodeTextLines>) -> (r: bool)
    ensures
        r == (forall|i: int|
            0 <= i < text_views(v@).len() ==> (#[trigger] text_views(v@)[i]) is Line),
{
    proof {
        lemma_text_views(v@);
    }
    let n = v.len();
    for i in 0..n
        invariant
            n == v@.len(),
            forall|q: int| 0 <= q < i ==> (#[trigger] text_views(v@)[q]) is Line,
    {
        let is_line = match &v[i] {
            DiffNodeTextLines::Line { .. } => true,
            _ => false,
        };
        if !is_line {
            proof {
                lemma_text_views(v@);
                assert(text_views(v@)[i as int] == v@[i as int]@);
                assert(!(text_views(v@)[i as int] is Line));
            }
            return false;
        }
        proof {
            lemma_text_views(v@);
            assert(text_views(v@)[i as int] == v@[i as int]@);
        }
    }
    true
}

/// Computes the diff of a node pair, per [`diff_rel`]: `Added` for a new
/// node without counterpart, `NoChange` without recursion when hashes
/// agree, and a `Modified` wrapper otherwise — recursing into directory
/// children matched by path and into the lines of text files.
#[verifier::loop_isolation(false)]
#[verifier::rlimit(100)]
pub fn diff_fs_items(old: Option<&DiffNodeFsItem>, new: &DiffNodeFsItem) -> (r: DiffNodeFsItem)
    ensures
        diff_rel(
            match old {
                Some(o) => Some(o@),
                None => None::<FsItemModel>,
            },
            new@,
            r@,
        ),
    decreases *new,
{
    let o = match old {
        Some(o) => o,
        None => {
            let dup = new.duplicate();
            let ghost dm = dup@;
            let r = DiffNodeFsItem::Added(Box::new(dup));
            proof {
                assert(r@ == FsItemModel::Added(Box::new(dm)));
            }
            return r;
        },
    };
    if crate::vc::hash_eq(o.get_hash(), new.get_hash()) {
        let dup = new.duplicate();
        let ghost dm = dup@;
        let r = DiffNodeFsItem::NoChange(Box::new(dup));
        proof {
            assert(r@ == FsItemModel::NoChange(Box::new(dm)));
        }
        return r;
    }
    let ghost om = o@;
    let ghost nm = new@;
    match (o, new) {
        (
            DiffNodeFsItem::Dir { children: ocs, .. },
            DiffNodeFsItem::Dir { path, hash, children: ncs },
        ) => {
            let ghost ovs = fs_views(ocs@);
            let ghost nvs = fs_views(ncs@);
            proof {
                lemma_fs_views(ocs@);
                lemma_fs_views(ncs@);
            }
            let mut rcs: Vec<DiffNodeFsItem> = Vec::new();
            let newn = ncs.len();
            for j in 0..newn
                invariant
                    newn == ncs@.len(),
                    rcs@.len() == j,
                    forall|q: int|
                        0 <= q < j ==> diff_rel(
                            child_with_path(ovs, nvs[q].path_spec()),
                            nvs[q],
                            (#[trigger] rcs@[q])@,
                        ),
            {
                let found = find_child(ocs, ncs[j].get_path());
                let child = diff_fs_items(found, &ncs[j]);
                rcs.push(child);
                proof {
                    assert(nvs[j as int] == ncs@[j as int]@);
                }
            }
            // the old children whose paths are gone
            let oldn = ocs.len();
            let mut t: usize = 0;
            while t < oldn
                invariant
                    oldn == ocs@.len(),
                    t <= oldn,
                    rcs@.len() == newn as int + deleted_children(
                        ovs.subrange(0, t as int),
                        nvs,
                    ).len(),
                    forall|q: int|
                        0 <= q < newn ==> diff_rel(
                            child_with_path(ovs, nvs[q].path_spec()),
                            nvs[q],
                            (#[trigger] rcs@[q])@,
                        ),
                    forall|q: int|
                        0 <= q < deleted_children(ovs.subrange(0, t as int), nvs).len() ==> (
                        #[trigger] rcs@[newn + q])@ == FsItemModel::Deleted(
                            Box::new(deleted_children(ovs.subrange(0, t as int), nvs)[q]),
                        ),
                decreases oldn - t,
            {
                let ghost pre_del = deleted_children(ovs.subrange(0, t as int), nvs);
                let found = find_child(ncs, ocs[t].get_path());
                proof {
                    lemma_deleted_children_push(ovs.subrange(0, t as int), ovs[t as int], nvs);
                    assert(ovs.subrange(0, t as int).push(ovs[t as int]) =~= ovs.subrange(
                        0,
                        t + 1,
                    ));
                    assert(ovs[t as int].path_spec() == ocs@[t as int]@.path_spec());
                }
                match found {
                    Some(_) => {
                        proof {
                            assert(deleted_children(ovs.subrange(0, t + 1), nvs) =~= pre_del);
                        }
                    },
                    None => {
                        let dup = ocs[t].duplicate();
                        let ghost dm = dup@;
                        let span = DiffNodeFsItem::Deleted(Box::new(dup));
                        rcs.push(span);
                        proof {
                            assert(span@ == FsItemModel::Deleted(Box::new(dm)));
                            assert(deleted_children(ovs.subrange(0, t + 1), nvs) =~= pre_del
                                + seq![ovs[t as int]]);
                        }
                    },
                }
                t = t + 1;
            }
            proof {
                assert(ovs.subrange(0, oldn as int) =~= ovs);
            }
            let ghost rcs_seq = rcs@;
            let rnew = DiffNodeFsItem::Dir {
                path: path.clone(),
                hash: clone_hash(hash),
                children: rcs,
            };
            let ghost rnm = rnew@;
            let old_dup = o.duplicate();
            let ghost odm = old_dup@;
            let r = DiffNodeFsItem::Modified { old: Box::new(old_dup), new: Box::new(rnew) };
            proof {
                lemma_fs_views(rcs_seq);
                assert(r@ == FsItemModel::Modified { old: Box::new(odm), new: Box::new(rnm) });
                assert(odm == om);
                assert(rnm == FsItemModel::Dir { path: path@, hash: hash@, children: fs_views(rcs_seq) });
                assert(match om {
                    FsItemModel::Dir { children: c, .. } => c == ovs,
                    _ => false,
                });
                assert(nm == FsItemModel::Dir { path: path@, hash: hash@, children: nvs });
                let rcsm = fs_views(rcs_seq);
                assert(rcsm.len() == nvs.len() + deleted_children(ovs, nvs).len());
                assert forall|j: int| 0 <= j < nvs.len() implies diff_rel(
                    child_with_path(ovs, nvs[j].path_spec()),
                    nvs[j],
                    #[trigger] rcsm[j],
                ) by {
                    assert(rcsm[j] == rcs_seq[j]@);
                }
                assert forall|t2: int| 0 <= t2 < deleted_children(ovs, nvs).len() implies (
                #[trigger] rcsm[nvs.len() + t2]) == FsItemModel::Deleted(
                    Box::new(deleted_children(ovs, nvs)[t2]),
                ) by {
                    assert(rcsm[nvs.len() + t2] == rcs_seq[nvs.len() + t2]@);
                }
                assert(diff_rel(Some(om), nm, r@));
            }
            r
        },
        (
            DiffNodeFsItem::TextFile { location_node: oloc, .. },
            DiffNodeFsItem::TextFile { path, hash, size, modified, location_node: nloc },
        ) => {
            let shaped = match (&**oloc, &**nloc) {
                (
                    DiffNodeTextLines::LineRange { children: och, .. },
                    DiffNodeTextLines::LineRange { children: nch, .. },
                ) => all_lines(och) && all_lines(nch),
                _ => false,
            };
            if !shaped {
                let old_dup = o.duplicate();
                let new_dup = new.duplicate();
                let ghost odm = old_dup@;
                let ghost ndm = new_dup@;
                let r = DiffNodeFsItem::Modified {
                    old: Box::new(old_dup),
                    new: Box::new(new_dup),
                };
                proof {
                    assert(r@ == FsItemModel::Modified {
                        old: Box::new(odm),
                        new: Box::new(ndm),
                    });
                    assert(!(lines_shape(*om->TextFile_location_node) && lines_shape(
                        *nm->TextFile_location_node,
                    )));
                }
                return r;
            }
            match (&**oloc, &**nloc) {
                (
                    DiffNodeTextLines::LineRange { children: och, .. },
                    DiffNodeTextLines::LineRange {
                        start: nstart,
                        end: nend,
                        hash: nhash,
                        children: nch,
                    },
                ) => {
                    let spans = diff_text_lines(och, nch);
                    let ghost spans_seq = spans@;
                    let rloc = DiffNodeTextLines::LineRange {
                        start: *nstart,
                        end: *nend,
                        hash: clone_hash(nhash),
                        children: spans,
                    };
                    let ghost rlm = rloc@;
                    let rnew = DiffNodeFsItem::TextFile {
                        path: path.clone(),
                        hash: clone_hash(hash),
                        size: *size,
                        modified: *modified,
                        location_node: Box::new(rloc),
                    };
                    let ghost rnm = rnew@;
                    let old_dup = o.duplicate();
                    let ghost odm = old_dup@;
                    let r = DiffNodeFsItem::Modified {
                        old: Box::new(old_dup),
                        new: Box::new(rnew),
                    };
                    proof {
                        lemma_text_views(spans_seq);
                        assert(r@ == FsItemModel::Modified {
                            old: Box::new(odm),
                            new: Box::new(rnm),
                        });
                        let olm = om->TextFile_location_node;
                        let nlm = nm->TextFile_location_node;
                        assert(*nlm == nloc@);
                        assert(*olm == oloc@);
                        assert(rlm == TextLinesModel::LineRange {
                            start: *nstart,
                            end: *nend,
                            hash: nhash@,
                            children: text_views(spans_seq),
                        });
                        assert(lines_of(nloc@) == text_views(nch@));
                        assert(lines_of(oloc@) == text_views(och@));
                        assert(nloc@.start_spec() == *nstart && nloc@.end_spec() == *nend
                            && nloc@.hash_spec() == nhash@);
                        assert forall|k: int| 0 <= k < text_views(spans_seq).len() implies
                            span_ok(#[trigger] text_views(spans_seq)[k]) by {
                            assert(span_ok(text_views(spans_seq)[k]));
                        }
                        assert(line_diff_ok(*olm, *nlm, rlm));
                        assert(diff_rel(Some(om), nm, r@));
                    }
                    r
                },
                _ => vstd::pervasive::unreached(),
            }
        },
        _ => {
            let old_dup = o.duplicate();
            let new_dup = new.duplicate();
            let ghost odm = old_dup@;
            let ghost ndm = new_dup@;
            let r = DiffNodeFsItem::Modified { old: Box::new(old_dup), new: Box::new(new_dup) };
            proof {
                assert(r@ == FsItemModel::Modified { old: Box::new(odm), new: Box::new(ndm) });
            }
            r
        },
    }
}

// ---------------------------------------------------------------------------
// Snapshots as filesystem items.
// ---------------------------------------------------------------------------

/// A tree as a filesystem item, ready to diff: a directory carrying the
/// tree's hash, whose children stand at their listing names; blobs appear
/// as binary files carrying their payload hash and size.
#[verifier::loop_isolation(false)]
pub fn tree_to_fs_item(path: &str, tree: &crate::vc::Tree) -> (r: DiffNodeFsItem)
    ensures
        r@ is Dir,
        r@.hash_spec() == tree.hash@,
        r@.path_spec() == path@,
        r@->Dir_children.len() == tree.listings@.len(),
        forall|i: int|
            0 <= i < tree.listings@.len() ==> {
                &&& (#[trigger] r@->Dir_children[i]).path_spec() == tree.listings@[i].0@
                &&& r@->Dir_children[i].hash_spec() == tree.listings@[i].1.hash_model()
                &&& r@->Dir_children[i].is_base()
            },
    decreases *tree,
{
    let mut children: Vec<DiffNodeFsItem> = Vec::new();
    let n = tree.listings.len();
    for i in 0..n
        invariant
            n == tree.listings@.len(),
            children@.len() == i,
            forall|j: int|
                0 <= j < i ==> {
                    &&& (#[trigger] children@[j])@.path_spec() == tree.listings@[j].0@
                    &&& children@[j]@.hash_spec() == tree.listings@[j].1.hash_model()
                    &&& children@[j]@.is_base()
                },
    {
        let child = match &tree.listings[i].1 {
            crate::vc::FsObject::Blob(b) => DiffNodeFsItem::BinaryFile {
                path: tree.listings[i].0.clone(),
                hash: clone_hash(&b.hash),
                size: b.data.len() as u64,
                modified: 0,
            },
            crate::vc::FsObject::Tree(t) => tree_to_fs_item(tree.listings[i].0.as_str(), t),
        };
        children.push(child);
    }
    let ghost cs = children@;
    let r = DiffNodeFsItem::Dir {
        path: path.to_owned(),
        hash: clone_hash(&tree.hash),
        children,
    };
    proof {
        lemma_fs_views(cs);
        assert forall|i: int| 0 <= i < tree.listings@.len() implies {
            &&& (#[trigger] r@->Dir_children[i]).path_spec() == tree.listings@[i].0@
            &&& r@->Dir_children[i].hash_spec() == tree.listings@[i].1.hash_model()
            &&& r@->Dir_children[i].is_base()
        } by {
            assert(r@->Dir_children[i] == cs[i]@);
        }
    }
    r
}

// ---------------------------------------------------------------------------
// Laws of the diff.
// ---------------------------------------------------------------------------

/// Law (diff idempotence): diffing a node against itself yields a
/// `NoChange` wrapper around that very node, whose top hash is the
/// node's own hash.
pub proof fn lemma_diff_identity(x: FsItemModel, r: FsItemModel)
    requires
        diff_rel(Some(x), x, r),
    ensures
        match r {
            FsItemModel::NoChange(inner) => *inner == x,
            _ => false,
        },
        r.hash_spec() == x.hash_spec(),
{
}

/// Law (pruning): whenever the two sides' hashes agree — in particular
/// for any shared subtree — the diff is a single `NoChange` wrapper
/// embedding the new node verbatim: the engine does not recurse into or
/// decompose the subtree.
pub proof fn lemma_diff_prunes(o: FsItemModel, n: FsItemModel, r: FsItemModel)
    requires
        diff_rel(Some(o), n, r),
        o.hash_spec() == n.hash_spec(),
    ensures
        match r {
            FsItemModel::NoChange(inner) => *inner == n,
            _ => false,
        },
        r.hash_spec() == n.hash_spec(),
{
}

} // verus!
