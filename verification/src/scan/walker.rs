//! What a directory walk makes of what it reads.
//!
//! A walk follows the root when the root itself is a symlink but never a symlink below it,
//! stays on the root's volume by default, records unreadable directories as errors instead
//! of failing and attributes hard-linked data to one path. Reading the disk is not done
//! here: what a stat says comes in as [`Facts`], what a directory lists as [`Entry`]s, and
//! the decisions are [`survey`] and [`close_dir`], once per directory, and [`finish_scan`]
//! at the end. [`super::walk`] puts them together.

use super::progress::{ProgressSpec, ScanProgress};
use super::tree::flatten::{
    links_in_order, message_text, nodes_in, subtree_shape, with_links, Subtree,
};
use super::tree::hardlinks::{deep_sorted, drained_all, losers, regrouped};
use super::tree::laws::a_linked_shape_has_one_arena;
use super::tree::weight::{heavy, walk_carries};
use super::tree::{breadth_first, node_cell, shape, Cell, Node, NodeId, NodeKind, Tree, NO_PARENT};
use crate::action::model::Timestamp;
use crate::order::total;
use crate::path::{normal, normalize, same_path, same_paths};
use crate::text::{boxed, copy_all, decimal, decimal_text, texts};
use vstd::prelude::*;

verus! {

/// What a stat says about an entry, without following it when it is a symlink.
#[derive(Debug, Clone, Copy, PartialEq, Eq, Structural)]
pub struct Facts {
    pub is_dir: bool,
    pub is_symlink: bool,
    pub is_file: bool,
    pub dev: u64,
    pub ino: u64,
    pub nlink: u64,
    /// Allocated blocks of 512 bytes.
    pub blocks: u64,
    /// Logical bytes.
    pub len: u64,
    pub mtime: i64,
}

/// The kind of an entry.
pub open spec fn kind_of(facts: Facts) -> NodeKind {
    if facts.is_dir {
        NodeKind::Dir
    } else if facts.is_symlink {
        NodeKind::Symlink
    } else if facts.is_file {
        NodeKind::File
    } else {
        NodeKind::Other
    }
}

/// The node of an entry: a directory has no logical bytes and no files of its own.
pub open spec fn cell_of(name: Seq<char>, facts: Facts) -> Cell {
    Cell {
        name,
        kind: kind_of(facts),
        size: (facts.blocks * 512) as u64,
        logical_size: if facts.is_dir {
            0
        } else {
            facts.len
        },
        file_count: if facts.is_dir {
            0
        } else {
            1
        },
        mtime: facts.mtime,
        error: None,
        link: None,
        parent: NO_PARENT,
        first: 0,
        count: 0,
    }
}

/// The node of an entry.
pub fn node_from_metadata(name: &str, facts: &Facts) -> (node: Node)
    requires
        facts.blocks * 512 <= u64::MAX,
    ensures
        node_cell(node, None, None) == cell_of(name@, *facts),
{
    let kind: NodeKind = NodeKind::from_metadata(facts.is_dir, facts.is_symlink, facts.is_file);
    Node::new(
        name,
        kind,
        facts.blocks * 512,
        if facts.is_dir {
            0
        } else {
            facts.len
        },
        if facts.is_dir {
            0
        } else {
            1
        },
        facts.mtime,
    )
}

#[derive(Debug)]
pub struct ScanOptions {
    pub root: String,
    /// Absolute directory paths that are not entered (and not listed).
    pub excludes: Vec<String>,
    /// Do not descend into directories on another volume.
    pub same_device: bool,
}

impl ScanOptions {
    pub fn new(root: String) -> (options: ScanOptions)
        ensures
            options.root == root,
            options.excludes@.len() == 0,
            options.same_device,
    {
        ScanOptions { root, excludes: Vec::new(), same_device: true }
    }

    /// The same scan, walked from somewhere else: every rule of this scan, a different
    /// root.
    pub fn rooted_at(&self, root: String) -> (options: ScanOptions)
        ensures
            options.root == root,
            texts(options.excludes@) == texts(self.excludes@),
            options.same_device == self.same_device,
    {
        ScanOptions { root, excludes: copy_all(&self.excludes), same_device: self.same_device }
    }

    /// The root without trailing slashes and `.` components, so the paths derived from it
    /// agree with the paths derived from its entries. Nothing is resolved.
    pub fn clean_root(&self) -> (root: String)
        ensures
            root@ == normal(self.root@),
    {
        normalize(&self.root)
    }
}

/// Whether a directory is held back by the options.
pub open spec fn excluded(excludes: Seq<Seq<char>>, path: Seq<char>) -> bool {
    exists|k: int| 0 <= k < excludes.len() && same_path(#[trigger] excludes[k], path)
}

/// Whether a directory is held back by the options.
pub fn is_excluded(options: &ScanOptions, path: &str) -> (r: bool)
    ensures
        r == excluded(texts(options.excludes@), path@),
{
    let mut i: usize = 0;
    while i < options.excludes.len()
        invariant
            i <= options.excludes.len(),
            forall|k: int| 0 <= k < i ==> !same_path(#[trigger] texts(options.excludes@)[k], path@),
        decreases options.excludes.len() - i,
    {
        if same_paths(&options.excludes[i], path) {
            assert(same_path(texts(options.excludes@)[i as int], path@));
            return true;
        }
        i += 1;
    }
    false
}

/// A directory whose entries could not be listed.
pub fn unread(node: Node, error: &str) -> (subtree: Subtree)
    ensures
        subtree.node == node,
        subtree.children@.len() == 0,
        subtree.hardlink is None,
        message_text(subtree.error) == Some(error@),
{
    let mut subtree: Subtree = Subtree::new(node);
    subtree.error = Some(boxed(error));
    subtree
}

/// One entry of a directory, as reading it went.
#[derive(Debug)]
pub enum Entry {
    /// It could not be listed, or not be looked at.
    Unreadable,
    Found { path: String, name: String, facts: Facts },
}

/// What is done with an entry.
pub enum Class {
    Unreadable,
    /// A directory that is not listed at all.
    Excluded,
    /// A directory that is listed and not entered.
    OtherVolume,
    /// A directory that is walked.
    Descend,
    Leaf,
}

pub open spec fn class_of(entry: Entry, excludes: Seq<Seq<char>>, same_device: bool, root_dev: u64) -> Class {
    match entry {
        Entry::Unreadable => Class::Unreadable,
        Entry::Found { path, name, facts } => if facts.is_dir {
            if excluded(excludes, path@) {
                Class::Excluded
            } else if same_device && facts.dev != root_dev {
                Class::OtherVolume
            } else {
                Class::Descend
            }
        } else {
            Class::Leaf
        },
    }
}

/// The rules of a walk and its first `k` entries.
pub struct Walked {
    pub entries: Seq<Entry>,
    pub excludes: Seq<Seq<char>>,
    pub same_device: bool,
    pub root_dev: u64,
}

impl Walked {
    pub open spec fn class(self, i: int) -> Class {
        class_of(self.entries[i], self.excludes, self.same_device, self.root_dev)
    }

    /// Entries that could not be read.
    pub open spec fn unreadable(self, k: nat) -> nat
        decreases k,
    {
        if k == 0 {
            0
        } else {
            self.unreadable((k - 1) as nat) + if self.class(k - 1) is Unreadable {
                1nat
            } else {
                0nat
            }
        }
    }

    /// The directories to walk, in the order they were listed.
    pub open spec fn dirs(self, k: nat) -> Seq<(Seq<char>, Cell)>
        decreases k,
    {
        if k == 0 {
            Seq::empty()
        } else {
            let before = self.dirs((k - 1) as nat);
            match (self.class(k - 1), self.entries[k - 1]) {
                (Class::Descend, Entry::Found { path, name, facts }) => before.push(
                    (path@, cell_of(name@, facts)),
                ),
                _ => before,
            }
        }
    }

    /// What is not walked into, in the order it was listed: a directory on another volume
    /// says so, and what has other names carries its `(dev, ino)`.
    pub open spec fn leaves(self, k: nat) -> Seq<Cell>
        decreases k,
    {
        if k == 0 {
            Seq::empty()
        } else {
            let before = self.leaves((k - 1) as nat);
            match (self.class(k - 1), self.entries[k - 1]) {
                (Class::OtherVolume, Entry::Found { path, name, facts }) => before.push(
                    Cell { error: Some("skipped: different volume"@), ..cell_of(name@, facts) },
                ),
                (Class::Leaf, Entry::Found { path, name, facts }) => before.push(
                    Cell {
                        link: if facts.nlink > 1 {
                            Some((facts.dev, facts.ino))
                        } else {
                            None
                        },
                        ..cell_of(name@, facts)
                    },
                ),
                _ => before,
            }
        }
    }

    /// The counters after the entries: every leaf is a file, a directory that is not entered
    /// is counted here.
    pub open spec fn progress(self, start: ProgressSpec, k: nat) -> ProgressSpec
        decreases k,
    {
        if k == 0 {
            start
        } else {
            let before = self.progress(start, (k - 1) as nat);
            match (self.class(k - 1), self.entries[k - 1]) {
                (Class::OtherVolume, Entry::Found { path, name, facts }) => before.with_dir(
                    (facts.blocks * 512) as u64,
                ),
                (Class::Leaf, Entry::Found { path, name, facts }) => before.with_file(
                    (facts.blocks * 512) as u64,
                ),
                _ => before,
            }
        }
    }
}

/// What a directory holds: the directories below it that are to be walked, everything else
/// as it goes into the tree, and how many entries could not be read.
pub struct Survey {
    pub dirs: Vec<(String, Node)>,
    pub leaves: Vec<Subtree>,
    pub unreadable: u64,
}

/// A leaf as it goes into the tree.
pub open spec fn leaf_cell(leaf: Subtree) -> Cell {
    node_cell(leaf.node, message_text(leaf.error), leaf.hardlink)
}

/// Sorts the entries of one directory: what is walked, what is listed, what could not be
/// read. The counters learn of what is listed.
pub fn survey(
    entries: &Vec<Entry>,
    options: &ScanOptions,
    root_dev: u64,
    progress: &mut ScanProgress,
) -> (found: Survey)
    requires
        forall|i: int|
            0 <= i < entries@.len() ==> (#[trigger] entries@[i] matches Entry::Found { facts, .. }
                ==> facts.blocks * 512 <= u64::MAX),
    ensures
        ({
            let walked = Walked {
                entries: entries@,
                excludes: texts(options.excludes@),
                same_device: options.same_device,
                root_dev,
            };
            let n = entries@.len();
            &&& found.unreadable == walked.unreadable(n)
            &&& found.dirs@.len() == walked.dirs(n).len()
            &&& forall|i: int|
                0 <= i < found.dirs@.len() ==> (#[trigger] found.dirs@[i]).0@ == walked.dirs(n)[i].0
                    && node_cell(found.dirs@[i].1, None, None) == walked.dirs(n)[i].1
            &&& found.leaves@.len() == walked.leaves(n).len()
            &&& forall|i: int|
                0 <= i < found.leaves@.len() ==> leaf_cell(#[trigger] found.leaves@[i])
                    == walked.leaves(n)[i] && found.leaves@[i].children@.len() == 0
            &&& final(progress)@ == walked.progress(old(progress)@, n)
        }),
{
    let ghost walked = Walked {
        entries: entries@,
        excludes: texts(options.excludes@),
        same_device: options.same_device,
        root_dev,
    };
    let ghost start = progress@;
    let mut dirs: Vec<(String, Node)> = Vec::new();
    let mut leaves: Vec<Subtree> = Vec::new();
    let mut unreadable: u64 = 0;
    let mut i: usize = 0;
    while i < entries.len()
        invariant
            i <= entries.len(),
            unreadable <= i,
            walked == (Walked {
                entries: entries@,
                excludes: texts(options.excludes@),
                same_device: options.same_device,
                root_dev,
            }),
            forall|i: int|
                0 <= i < entries@.len() ==> (#[trigger] entries@[i] matches Entry::Found { facts, .. }
                    ==> facts.blocks * 512 <= u64::MAX),
            unreadable == walked.unreadable(i as nat),
            dirs@.len() == walked.dirs(i as nat).len(),
            forall|k: int|
                0 <= k < dirs@.len() ==> (#[trigger] dirs@[k]).0@ == walked.dirs(i as nat)[k].0
                    && node_cell(dirs@[k].1, None, None) == walked.dirs(i as nat)[k].1,
            leaves@.len() == walked.leaves(i as nat).len(),
            forall|k: int|
                0 <= k < leaves@.len() ==> leaf_cell(#[trigger] leaves@[k]) == walked.leaves(
                    i as nat,
                )[k] && leaves@[k].children@.len() == 0,
            progress@ == walked.progress(start, i as nat),
        decreases entries.len() - i,
    {
        let ghost last = walked.class(i as int);
        assert(entries@[i as int] matches Entry::Found { facts, .. } ==> facts.blocks * 512 <= u64::MAX);
        match &entries[i] {
            Entry::Unreadable => {
                unreadable += 1;
            },
            Entry::Found { path, name, facts } => {
                let child: Node = node_from_metadata(name, facts);
                if facts.is_dir {
                    if !is_excluded(options, path) {
                        if options.same_device && facts.dev != root_dev {
                            progress.add_dir(child.size);
                            leaves.push(unread(child, "skipped: different volume"));
                        } else {
                            dirs.push((path.clone(), child));
                        }
                    }
                } else {
                    progress.add_file(child.size);
                    let mut leaf: Subtree = Subtree::new(child);
                    if facts.nlink > 1 {
                        leaf.hardlink = Some((facts.dev, facts.ino));
                    }
                    leaves.push(leaf);
                }
            },
        }
        i += 1;
    }
    Survey { dirs, leaves, unreadable }
}

/// What the allocated bytes of several subtrees come to.
pub open spec fn sizes(subtrees: Seq<Subtree>) -> nat {
    total(subtrees, |child: Subtree| child.node.size as nat)
}

/// What the logical bytes of several subtrees come to.
pub open spec fn logical_sizes(subtrees: Seq<Subtree>) -> nat {
    total(subtrees, |child: Subtree| child.node.logical_size as nat)
}

/// How many files several subtrees hold.
pub open spec fn file_counts(subtrees: Seq<Subtree>) -> nat {
    total(subtrees, |child: Subtree| child.node.file_count as nat)
}

/// What is said of a directory some entries of which could not be read.
pub open spec fn unreadable_text(count: nat) -> Seq<char> {
    decimal_text(count) + (if count == 1 {
        " entry could not be read"@
    } else {
        " entries could not be read"@
    })
}

/// Whether `sum` is `node` with everything below it counted in.
pub open spec fn aggregates(node: Node, children: Seq<Subtree>, sum: Node) -> bool {
    &&& sum.name == node.name
    &&& sum.kind == node.kind
    &&& sum.mtime == node.mtime
    &&& sum.links == node.links
    &&& sum.size == node.size + sizes(children)
    &&& sum.logical_size == node.logical_size + logical_sizes(children)
    &&& sum.file_count == node.file_count + file_counts(children)
}

proof fn totals_rise(children: Seq<Subtree>, i: int)
    requires
        0 <= i < children.len(),
    ensures
        sizes(children.take(i)) + children[i].node.size <= sizes(children),
        logical_sizes(children.take(i)) + children[i].node.logical_size <= logical_sizes(children),
        file_counts(children.take(i)) + children[i].node.file_count <= file_counts(children),
    decreases children.len(),
{
    let less = children.drop_last();
    if i < less.len() {
        totals_rise(less, i);
        assert(less.take(i) =~= children.take(i));
        assert(sizes(children) == sizes(less) + children.last().node.size);
        assert(logical_sizes(children) == logical_sizes(less) + children.last().node.logical_size);
        assert(file_counts(children) == file_counts(less) + children.last().node.file_count);
    } else {
        assert(children.take(i) =~= less);
    }
}

/// The directory a survey was made in, once the directories below it have been walked: its
/// own blocks plus everything below it, and a word about what could not be read. The
/// counters learn of the directory and of its errors.
pub fn close_dir(
    node: Node,
    leaves: Vec<Subtree>,
    subdirs: Vec<Subtree>,
    unreadable: u64,
    progress: &mut ScanProgress,
) -> (subtree: Subtree)
    requires
        node.size + sizes(leaves@ + subdirs@) <= u64::MAX,
        node.logical_size + logical_sizes(leaves@ + subdirs@) <= u64::MAX,
        node.file_count + file_counts(leaves@ + subdirs@) <= u32::MAX,
    ensures
        subtree.children@ == leaves@ + subdirs@,
        aggregates(node, leaves@ + subdirs@, subtree.node),
        subtree.hardlink is None,
        message_text(subtree.error) == if unreadable > 0 {
            Some(unreadable_text(unreadable as nat))
        } else {
            None
        },
        final(progress)@ == old(progress)@.with_dir(node.size).with_errors(unreadable as nat),
        (forall|i: int|
            0 <= i < subtree.children@.len() ==> heavy(#[trigger] subtree.children@[i])) ==> heavy(
            subtree,
        ),
{
    let ghost own = node;
    let mut node: Node = node;
    let mut children: Vec<Subtree> = leaves;
    let mut subdirs: Vec<Subtree> = subdirs;
    children.append(&mut subdirs);
    progress.add_dir(node.size);
    let ghost all = children@;
    let mut i: usize = 0;
    assert(all.take(0) =~= Seq::empty());
    while i < children.len()
        invariant
            i <= children.len(),
            all == children@,
            own.size + sizes(all) <= u64::MAX,
            own.logical_size + logical_sizes(all) <= u64::MAX,
            own.file_count + file_counts(all) <= u32::MAX,
            aggregates(own, all.take(i as int), node),
        decreases children.len() - i,
    {
        proof {
            totals_rise(all, i as int);
            assert(all.take(i + 1).drop_last() =~= all.take(i as int));
            assert(all.take(i + 1).last() == all[i as int]);
        }
        node.size = node.size + children[i].node.size;
        node.logical_size = node.logical_size + children[i].node.logical_size;
        node.file_count = node.file_count + children[i].node.file_count;
        i += 1;
    }
    assert(all.take(all.len() as int) =~= all);
    let mut subtree: Subtree = Subtree::with_children(node, children);
    if unreadable > 0 {
        let ghost before = progress@;
        let mut k: u64 = 0;
        while k < unreadable
            invariant
                k <= unreadable,
                progress@ == before.with_errors(k as nat),
            decreases unreadable - k,
        {
            progress.add_error();
            k += 1;
        }
        let mut message: String = decimal(unreadable);
        if unreadable == 1 {
            message.append(" entry could not be read");
        } else {
            message.append(" entries could not be read");
        }
        subtree.error = Some(boxed(&message));
    }
    subtree
}

/// A directory the walk did not read because the scan was cancelled.
pub fn cancelled_dir(node: Node, progress: &mut ScanProgress) -> (subtree: Subtree)
    ensures
        subtree.node == node,
        subtree.children@.len() == 0,
        subtree.hardlink is None,
        message_text(subtree.error) == Some("scan cancelled"@),
        final(progress)@ == old(progress)@.with_dir(node.size),
        heavy(subtree),
{
    progress.add_dir(node.size);
    unread(node, "scan cancelled")
}

/// A directory that could not be listed.
pub fn unreadable_dir(node: Node, message: &str, progress: &mut ScanProgress) -> (subtree: Subtree)
    ensures
        subtree.node == node,
        subtree.children@.len() == 0,
        subtree.hardlink is None,
        message_text(subtree.error) == Some(message@),
        final(progress)@ == old(progress)@.with_error().with_dir(node.size),
        heavy(subtree),
{
    progress.add_error();
    progress.add_dir(node.size);
    unread(node, message)
}

/// What a survey lists carries no more than its own weight.
pub proof fn leaves_are_heavy(leaves: Seq<Subtree>)
    requires
        forall|i: int| 0 <= i < leaves.len() ==> (#[trigger] leaves[i]).children@.len() == 0,
    ensures
        forall|i: int| 0 <= i < leaves.len() ==> heavy(#[trigger] leaves[i]),
{
}

#[derive(Debug, Clone, Copy, PartialEq, Eq, Structural)]
pub struct ScanStats {
    /// Entries that are not directories (files, symlinks, devices).
    pub files: u64,
    pub dirs: u64,
    /// Allocated bytes of the whole tree; equals the root node's `size`.
    pub bytes: u64,
    /// Directories and entries that could not be read.
    pub errors: u64,
    /// Further links to data already counted under another path.
    pub hardlinks_skipped: u64,
}

#[derive(Debug)]
pub struct ScanResult {
    pub root: String,
    pub started_at: Timestamp,
    pub duration_ms: u64,
    pub stats: ScanStats,
    pub cancelled: bool,
    pub tree: Tree,
}

/// Why a scan did not run.
#[derive(Debug, PartialEq, Eq)]
pub enum ScanError {
    NotADirectory(String),
    Root { path: String, kind: IoErrorKind, source: String },
    Workers(String),
}

/// What is said of a [`ScanError`].
pub open spec fn scan_error_text(error: ScanError) -> Seq<char> {
    match error {
        ScanError::NotADirectory(path) => path@ + " is not a directory"@,
        ScanError::Root { path, kind, source } => "cannot read "@ + path@ + ": "@ + source@,
        ScanError::Workers(source) => "cannot start the scan workers: "@ + source@,
    }
}

impl ScanError {
    /// What is said of it.
    pub fn message(&self) -> (text: String)
        ensures
            text@ == scan_error_text(*self),
    {
        match self {
            ScanError::NotADirectory(path) => {
                let mut text: String = path.clone();
                text.append(" is not a directory");
                text
            },
            ScanError::Root { path, kind: _, source } => {
                let mut text: String = "cannot read ".to_owned();
                text.append(path);
                text.append(": ");
                text.append(source);
                text
            },
            ScanError::Workers(source) => {
                let mut text: String = "cannot start the scan workers: ".to_owned();
                text.append(source);
                text
            },
        }
    }
}

/// What kind of failure reading the disk met.
#[derive(Debug, Clone, Copy, PartialEq, Eq, Structural)]
pub enum IoErrorKind {
    NotFound,
    NotADirectory,
    Other,
}

/// Whether an error means nothing is at the path any more: it was deleted, or one of its
/// parents is no longer a directory. Every other failure says nothing about whether the path
/// is there, so the branch stays.
pub fn is_gone(kind: IoErrorKind) -> (r: bool)
    ensures
        r == (kind == IoErrorKind::NotFound || kind == IoErrorKind::NotADirectory),
{
    match kind {
        IoErrorKind::NotFound => true,
        IoErrorKind::NotADirectory => true,
        IoErrorKind::Other => false,
    }
}

/// What is asked of a result: the tree of a walked subtree with every link's data counted
/// once.
pub open spec fn scans(subtree: Subtree, tree: Tree, skipped: u64) -> bool {
    exists|flat: Tree, links: Seq<(u64, u64, NodeId)>| #[trigger]
        walked_into(subtree, flat, links, tree, skipped)
}

/// `flat` and `links` are what flattening `subtree` gives, and `tree` is `flat` with the data
/// of `links` attributed, which left `skipped` of them without.
pub open spec fn walked_into(
    subtree: Subtree,
    flat: Tree,
    links: Seq<(u64, u64, NodeId)>,
    tree: Tree,
    skipped: u64,
) -> bool {
    &&& flat.wf()
    &&& flat.cells().len() == nodes_in(subtree)
    &&& breadth_first(flat.cells())
    &&& links_in_order(links, flat.cells().len())
    &&& shape(with_links(flat.cells(), links), 0) == subtree_shape(subtree)
    &&& skipped == losers(flat.cells(), links).len()
    &&& tree.wf()
    &&& tree.cells().len() == flat.cells().len()
    &&& tree.cells() == if skipped == 0 {
        flat.cells()
    } else {
        regrouped(drained_all(flat.cells(), losers(flat.cells(), links)), 0)
    }
    &&& tree.shape() == deep_sorted(
        shape(drained_all(flat.cells(), losers(flat.cells(), links)), 0),
    )
}

/// Walked subtrees of one shape have one tree, id by id, and one count of what was skipped:
/// nothing about the tree of a walk is left to how it was built.
pub proof fn a_walk_has_one_tree(
    walked: Subtree,
    again: Subtree,
    a: Tree,
    b: Tree,
    skipped: u64,
    others: u64,
)
    requires
        subtree_shape(walked) == subtree_shape(again),
        scans(walked, a, skipped),
        scans(again, b, others),
    ensures
        a.cells() == b.cells(),
        skipped == others,
{
    let (flat, links) = choose|flat: Tree, links: Seq<(u64, u64, NodeId)>| #[trigger]
        walked_into(walked, flat, links, a, skipped);
    let (level, rows) = choose|level: Tree, rows: Seq<(u64, u64, NodeId)>| #[trigger]
        walked_into(again, level, rows, b, others);
    assert(nodes_in(walked) >= 1 && nodes_in(again) >= 1);
    a_linked_shape_has_one_arena(flat, links, level, rows);
}

/// The result of a walk that came back to its root.
///
/// `cancelled` is read before: a cancel that arrives while a complete tree is being flattened
/// must not label it as partial.
pub fn finish_scan(
    subtree: Subtree,
    root: String,
    started_at: Timestamp,
    duration_ms: u64,
    cancelled: bool,
    progress: &ScanProgress,
) -> (result: ScanResult)
    requires
        heavy(subtree),
        nodes_in(subtree) <= u32::MAX,
    ensures
        result.root == root,
        result.started_at == started_at,
        result.duration_ms == duration_ms,
        result.cancelled == cancelled,
        result.tree.cells().len() > 0,
        scans(subtree, result.tree, result.stats.hardlinks_skipped),
        result.stats.files == progress@.files,
        result.stats.dirs == progress@.dirs,
        result.stats.errors == progress@.errors,
        result.stats.bytes == result.tree.cells()[0].size,
{
    let (tree, links): (Tree, Vec<(u64, u64, NodeId)>) = subtree.flatten();
    let ghost flat = tree;
    let ghost all = links@;
    proof {
        assert(nodes_in(subtree) >= 1);
        assert(links.len() <= usize::MAX);
        walk_carries(subtree, tree, links@);
    }
    let mut tree: Tree = tree;
    let hardlinks_skipped: u64 = tree.attribute_hard_links(links);
    assert(walked_into(subtree, flat, all, tree, hardlinks_skipped));
    let bytes: u64 = tree.root().size;
    let seen = progress.snapshot();
    ScanResult {
        root,
        started_at,
        duration_ms,
        stats: ScanStats {
            files: seen.files,
            dirs: seen.dirs,
            bytes,
            errors: seen.errors,
            hardlinks_skipped,
        },
        cancelled,
        tree,
    }
}

/// The whole tree of a path that is not walked into: one node named with the path, plus the
/// reason it was not entered when there is one.
pub fn single_node(path: &str, facts: &Facts, error: Option<&str>) -> (tree: Tree)
    requires
        facts.blocks * 512 <= u64::MAX,
    ensures
        tree.wf(),
        tree.cells().len() == 1,
        tree.shape() == super::tree::cell_shape(
            Cell {
                error: match error {
                    Some(reason) => Some(reason@),
                    None => None,
                },
                ..cell_of(path@, *facts)
            },
            Seq::empty(),
        ),
{
    let node: Node = node_from_metadata(path, facts);
    let subtree: Subtree = match error {
        Some(reason) => unread(node, reason),
        None => Subtree::new(node),
    };
    let ghost whole = subtree;
    proof {
        single_shape(whole);
    }
    let (tree, links): (Tree, Vec<(u64, u64, NodeId)>) = subtree.flatten();
    proof {
        super::tree::flatten::no_links_in(tree.cells(), links@, whole);
    }
    tree
}

proof fn single_shape(subtree: Subtree)
    requires
        subtree.children@.len() == 0,
    ensures
        nodes_in(subtree) == 1,
        subtree_shape(subtree).children == Seq::<super::tree::Shape>::empty(),
{
    let none = super::tree::flatten::subtree_shapes(subtree.children@);
    assert(none =~= Seq::empty());
    super::tree::growth::shapes_len_sorted(none);
    assert(subtree_shape(subtree).children =~= Seq::empty());
}

/// A failure to read the disk, in its words.
#[derive(Debug, Clone, PartialEq, Eq)]
pub struct IoError {
    pub kind: IoErrorKind,
    pub message: String,
}

/// The error of a scan whose root, spelled `path`, could not be read.
pub open spec fn root_error(error: ScanError, path: Seq<char>, io: IoError) -> bool {
    &&& error matches ScanError::Root { path: at, kind, source }
    &&& at@ == path
    &&& kind == io.kind
    &&& source@ == io.message@
}

fn unreadable_root(path: String, io: &IoError) -> (error: ScanError)
    ensures
        root_error(error, path@, *io),
{
    ScanError::Root { path, kind: io.kind, source: io.message.clone() }
}

/// The node a scan starts from: its root, which has to be a directory that can be looked at.
/// `stat` describes what the root leads to, a link followed.
pub fn open_root(options: &ScanOptions, stat: &Result<Facts, IoError>) -> (node: Result<
    Node,
    ScanError,
>)
    requires
        stat matches Ok(facts) ==> facts.blocks * 512 <= u64::MAX,
    ensures
        match (*stat, node) {
            (Ok(facts), Ok(node)) => facts.is_dir && node_cell(node, None, None) == cell_of(
                normal(options.root@),
                facts,
            ),
            (Ok(facts), Err(ScanError::NotADirectory(path))) => !facts.is_dir && path@ == normal(
                options.root@,
            ),
            (Err(io), Err(error)) => root_error(error, normal(options.root@), io),
            _ => false,
        },
{
    let root: String = options.clean_root();
    match stat {
        Err(io) => Err(unreadable_root(root, io)),
        Ok(facts) => if facts.is_dir {
            Ok(node_from_metadata(&root, facts))
        } else {
            Err(ScanError::NotADirectory(root))
        },
    }
}

/// The volume the scan being patched measures, so its rule compares against the same device
/// the walk did. `stat` describes what the root leads to, a link followed.
pub fn root_device(options: &ScanOptions, stat: &Result<Facts, IoError>) -> (device: Result<
    u64,
    ScanError,
>)
    ensures
        match (*stat, device) {
            (Ok(facts), Ok(device)) => device == facts.dev,
            (Err(io), Err(error)) => root_error(error, normal(options.root@), io),
            _ => false,
        },
{
    match stat {
        Ok(facts) => Ok(facts.dev),
        Err(io) => Err(unreadable_root(options.clean_root(), io)),
    }
}

/// What a rescan of a path comes to once the path has been looked at.
#[derive(Debug)]
pub enum Rescan {
    /// Nothing is there any more: the branch is dropped.
    Gone,
    /// It is not walked into: this is the whole branch.
    Single(Tree),
    /// A directory of the scan's own volume: it is walked.
    Walk,
    /// It cannot be looked at, which says nothing about whether it is there.
    Failed(ScanError),
}

/// Whether the volume of the scan's root decides what a rescan does.
pub fn needs_root_device(stat: &Result<Facts, IoError>, options: &ScanOptions) -> (r: bool)
    ensures
        r == (stat matches Ok(facts) && facts.is_dir && options.same_device),
{
    match stat {
        Ok(facts) => facts.is_dir && options.same_device,
        Err(_) => false,
    }
}

/// Whether a tree is one node, this one.
pub open spec fn single(tree: Tree, cell: Cell) -> bool {
    &&& tree.wf()
    &&& tree.cells().len() == 1
    &&& tree.shape() == super::tree::cell_shape(cell, Seq::empty())
}

/// What is done about a path after a deletion: a path that is gone is dropped, a directory
/// is walked, anything else becomes a single node. A directory on another volume than the
/// scan's root comes back as the single skipped node the walk leaves in the tree.
///
/// `stat` describes the path without trailing slashes and `.` components, no link followed;
/// `root_dev` is what [`root_device`] says, where it is needed.
pub fn rescan_path(
    path: &str,
    options: &ScanOptions,
    stat: &Result<Facts, IoError>,
    root_dev: Option<Result<u64, ScanError>>,
) -> (rescan: Rescan)
    requires
        stat matches Ok(facts) ==> facts.blocks * 512 <= u64::MAX,
        stat matches Ok(facts) && facts.is_dir && options.same_device ==> root_dev is Some,
    ensures
        match *stat {
            Err(io) => if io.kind == IoErrorKind::NotFound || io.kind
                == IoErrorKind::NotADirectory {
                rescan is Gone
            } else {
                rescan matches Rescan::Failed(error) && root_error(error, normal(path@), io)
            },
            Ok(facts) => if !facts.is_dir {
                rescan matches Rescan::Single(tree) && single(tree, cell_of(normal(path@), facts))
            } else if !options.same_device {
                rescan is Walk
            } else {
                match root_dev->0 {
                    Err(error) => rescan == Rescan::Failed(error),
                    Ok(device) => if device == facts.dev {
                        rescan is Walk
                    } else {
                        rescan matches Rescan::Single(tree) && single(
                            tree,
                            Cell {
                                error: Some("skipped: different volume"@),
                                ..cell_of(normal(path@), facts)
                            },
                        )
                    },
                }
            },
        },
{
    let path: String = normalize(path);
    match stat {
        Err(io) => if is_gone(io.kind) {
            Rescan::Gone
        } else {
            Rescan::Failed(unreadable_root(path, io))
        },
        Ok(facts) => {
            if !facts.is_dir {
                return Rescan::Single(single_node(&path, facts, None));
            }
            // The walk stops at a mount point below its root; walking from here would
            // measure the volume against itself.
            if options.same_device {
                match root_dev {
                    Some(Err(error)) => {
                        return Rescan::Failed(error);
                    },
                    Some(Ok(device)) => {
                        if facts.dev != device {
                            return Rescan::Single(
                                single_node(&path, facts, Some("skipped: different volume")),
                            );
                        }
                    },
                    None => {},
                }
            }
            Rescan::Walk
        },
    }
}

/// What the walk of a rescan comes to: a directory deleted since it was looked at is gone,
/// not an error.
pub fn walk_from(walked: Result<Tree, ScanError>) -> (branch: Result<Option<Tree>, ScanError>)
    ensures
        branch == match walked {
            Ok(tree) => Ok::<Option<Tree>, ScanError>(Some(tree)),
            Err(error) => match error {
                ScanError::Root { path, kind, source } if kind == IoErrorKind::NotFound || kind
                    == IoErrorKind::NotADirectory => Ok::<Option<Tree>, ScanError>(None),
                _ => Err::<Option<Tree>, ScanError>(error),
            },
        },
{
    match walked {
        Ok(tree) => Ok(Some(tree)),
        Err(error) => {
            let gone: bool = match &error {
                ScanError::Root { path: _, kind, source: _ } => is_gone(*kind),
                _ => false,
            };
            if gone {
                Ok(None)
            } else {
                Err(error)
            }
        },
    }
}

} // verus!
