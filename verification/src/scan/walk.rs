//! A whole scan over what was read.
//!
//! Reading the disk leaves a [`Listing`]: a directory as its listing went, and what was read
//! below it. [`walk_dir`] makes the tree of it, directory by directory, and [`scan`] the
//! result of the scan.

use super::progress::{ProgressSpec, ScanProgress};
use super::tree::flatten::{
    nodes_in, nodes_in_all, subtree_shape, subtree_shapes, subtree_shapes_at, Subtree,
};
use super::tree::growth::shapes_len_sorted;
use super::tree::weight::heavy;
use super::tree::{cell_shape, node_cell, Cell, Node, Shape, Tree};
use super::walker::{
    a_walk_has_one_tree, cancelled_dir, cell_of, close_dir, file_counts, finish_scan, leaf_cell,
    leaves_are_heavy, logical_sizes, open_root, root_error, scans, sizes, survey, unreadable_dir,
    unreadable_text, Entry, Facts, IoError, ScanError, ScanOptions, ScanResult, Survey, Walked,
};
use crate::action::model::Timestamp;
use crate::order::sorted;
use crate::path::normal;
use crate::text::texts;
use vstd::prelude::*;

verus! {

/// A directory as reading it went.
#[derive(Debug)]
pub enum Listing {
    /// The scan had been cancelled when the walk came here.
    Cancelled,
    /// It could not be listed, in the disk's words.
    Unreadable(String),
    /// Its entries, and what was read below those of them that are walked, in their order.
    Read { entries: Vec<Entry>, below: Vec<Listing> },
}

/// The rules of a walk.
pub struct Rules {
    pub excludes: Seq<Seq<char>>,
    pub same_device: bool,
    pub root_dev: u64,
}

impl Rules {
    /// What the rules make of the entries of a directory.
    pub open spec fn over(self, entries: Seq<Entry>) -> Walked {
        Walked {
            entries,
            excludes: self.excludes,
            same_device: self.same_device,
            root_dev: self.root_dev,
        }
    }
}

/// The rules of a scan whose root is on the volume `root_dev`.
pub open spec fn rules_of(options: ScanOptions, root_dev: u64) -> Rules {
    Rules { excludes: texts(options.excludes@), same_device: options.same_device, root_dev }
}

/// Whether a listing is one of a walk under these rules: something was read below every
/// directory that is walked, and every size can be counted.
pub open spec fn recorded(listing: Listing, rules: Rules) -> bool
    decreases listing,
{
    match listing {
        Listing::Read { entries, below } => {
            &&& below@.len() == rules.over(entries@).dirs(entries@.len()).len()
            &&& forall|i: int|
                0 <= i < entries@.len() ==> (#[trigger] entries@[i] matches Entry::Found {
                    facts,
                    ..
                } ==> facts.blocks * 512 <= u64::MAX)
            &&& forall|i: int| 0 <= i < below@.len() ==> recorded(#[trigger] below@[i], rules)
        },
        _ => true,
    }
}

/// What a directory and everything below it come to.
pub struct Weight {
    pub size: nat,
    pub logical_size: nat,
    pub file_count: nat,
    pub nodes: nat,
}

impl Weight {
    pub open spec fn plus(self, other: Weight) -> Weight {
        Weight {
            size: self.size + other.size,
            logical_size: self.logical_size + other.logical_size,
            file_count: self.file_count + other.file_count,
            nodes: self.nodes + other.nodes,
        }
    }

    /// Whether a tree can hold it.
    pub open spec fn fits(self) -> bool {
        &&& self.size <= u64::MAX
        &&& self.logical_size <= u64::MAX
        &&& self.file_count <= u32::MAX
        &&& self.nodes <= u32::MAX
    }
}

/// What one node comes to.
pub open spec fn own_weight(cell: Cell) -> Weight {
    Weight {
        size: cell.size as nat,
        logical_size: cell.logical_size as nat,
        file_count: cell.file_count as nat,
        nodes: 1,
    }
}

/// What several nodes come to.
pub open spec fn cells_weight(cells: Seq<Cell>) -> Weight
    decreases cells.len(),
{
    if cells.len() == 0 {
        Weight { size: 0, logical_size: 0, file_count: 0, nodes: 0 }
    } else {
        cells_weight(cells.drop_last()).plus(own_weight(cells.last()))
    }
}

/// What a directory comes to with everything that was read below it.
pub open spec fn weigh(cell: Cell, listing: Listing, rules: Rules) -> Weight
    decreases listing,
{
    match listing {
        Listing::Read { entries, below } => {
            let walked = rules.over(entries@);
            own_weight(cell).plus(
                cells_weight(walked.leaves(entries@.len())).plus(
                    weigh_all(walked.dirs(entries@.len()), below@, rules),
                ),
            )
        },
        _ => own_weight(cell),
    }
}

/// What several directories come to.
pub open spec fn weigh_all(
    dirs: Seq<(Seq<char>, Cell)>,
    below: Seq<Listing>,
    rules: Rules,
) -> Weight
    decreases below,
{
    if below.len() == 0 {
        Weight { size: 0, logical_size: 0, file_count: 0, nodes: 0 }
    } else {
        weigh_all(dirs, below.drop_last(), rules).plus(
            weigh(dirs[below.len() - 1].1, below.last(), rules),
        )
    }
}

/// The tree of a directory: what is not walked into, what was read below the rest, every
/// group of siblings in order, and every total counting what is below it.
pub open spec fn branch(cell: Cell, listing: Listing, rules: Rules) -> Shape
    decreases listing,
{
    match listing {
        Listing::Cancelled => cell_shape(
            Cell { error: Some("scan cancelled"@), ..cell },
            Seq::empty(),
        ),
        Listing::Unreadable(message) => cell_shape(
            Cell { error: Some(message@), ..cell },
            Seq::empty(),
        ),
        Listing::Read { entries, below } => {
            let n = entries@.len();
            let walked = rules.over(entries@);
            let whole = weigh(cell, listing, rules);
            cell_shape(
                Cell {
                    size: whole.size as u64,
                    logical_size: whole.logical_size as u64,
                    file_count: whole.file_count as u32,
                    error: if walked.unreadable(n) > 0 {
                        Some(unreadable_text(walked.unreadable(n)))
                    } else {
                        None
                    },
                    ..cell
                },
                sorted(
                    leaf_shapes(walked.leaves(n)) + branches(walked.dirs(n), below@, rules),
                ),
            )
        },
    }
}

/// Nodes with nothing below them.
pub open spec fn leaf_shapes(leaves: Seq<Cell>) -> Seq<Shape> {
    leaves.map_values(|cell: Cell| cell_shape(cell, Seq::empty()))
}

/// The trees of several directories.
pub open spec fn branches(
    dirs: Seq<(Seq<char>, Cell)>,
    below: Seq<Listing>,
    rules: Rules,
) -> Seq<Shape>
    decreases below,
{
    if below.len() == 0 {
        Seq::empty()
    } else {
        branches(dirs, below.drop_last(), rules).push(
            branch(dirs[below.len() - 1].1, below.last(), rules),
        )
    }
}

/// The counters after a directory: what is listed in it, what is below it, the directory
/// itself, and what could not be read.
pub open spec fn counted(
    start: ProgressSpec,
    path: Seq<char>,
    cell: Cell,
    listing: Listing,
    rules: Rules,
) -> ProgressSpec
    decreases listing,
{
    let entered = ProgressSpec { current_path: path, ..start };
    match listing {
        Listing::Cancelled => entered.with_dir(cell.size),
        Listing::Unreadable(_) => entered.with_error().with_dir(cell.size),
        Listing::Read { entries, below } => {
            let n = entries@.len();
            let walked = rules.over(entries@);
            counted_all(walked.progress(entered, n), walked.dirs(n), below@, rules).with_dir(
                cell.size,
            ).with_errors(walked.unreadable(n))
        },
    }
}

/// The counters after several directories.
pub open spec fn counted_all(
    start: ProgressSpec,
    dirs: Seq<(Seq<char>, Cell)>,
    below: Seq<Listing>,
    rules: Rules,
) -> ProgressSpec
    decreases below,
{
    if below.len() == 0 {
        start
    } else {
        counted(
            counted_all(start, dirs, below.drop_last(), rules),
            dirs[below.len() - 1].0,
            dirs[below.len() - 1].1,
            below.last(),
            rules,
        )
    }
}

/// What several subtrees come to.
spec fn subtrees_weight(subtrees: Seq<Subtree>) -> Weight {
    Weight {
        size: sizes(subtrees),
        logical_size: logical_sizes(subtrees),
        file_count: file_counts(subtrees),
        nodes: nodes_in_all(subtrees),
    }
}

/// What one subtree comes to.
spec fn subtree_weight(subtree: Subtree) -> Weight {
    Weight {
        size: subtree.node.size as nat,
        logical_size: subtree.node.logical_size as nat,
        file_count: subtree.node.file_count as nat,
        nodes: nodes_in(subtree),
    }
}

proof fn one_more(subtrees: Seq<Subtree>, last: Subtree)
    ensures
        subtrees_weight(subtrees.push(last)) == subtrees_weight(subtrees).plus(
            subtree_weight(last),
        ),
{
    assert(subtrees.push(last).drop_last() =~= subtrees);
}

proof fn together(a: Seq<Subtree>, b: Seq<Subtree>)
    ensures
        subtrees_weight(a + b) == subtrees_weight(a).plus(subtrees_weight(b)),
    decreases b.len(),
{
    if b.len() == 0 {
        assert(a + b =~= a);
    } else {
        together(a, b.drop_last());
        assert(a + b =~= (a + b.drop_last()).push(b.last()));
        one_more(a + b.drop_last(), b.last());
        assert(b =~= b.drop_last().push(b.last()));
        one_more(b.drop_last(), b.last());
    }
}

/// A subtree with nothing below it.
proof fn bare(subtree: Subtree)
    requires
        subtree.children@.len() == 0,
    ensures
        subtree_shape(subtree) == cell_shape(leaf_cell(subtree), Seq::empty()),
        subtree_weight(subtree) == own_weight(leaf_cell(subtree)),
{
    let none = subtree_shapes(subtree.children@);
    assert(none =~= Seq::empty());
    shapes_len_sorted(none);
    assert(subtree_shape(subtree).children =~= Seq::empty());
}

/// What a survey lists, as it goes into the tree.
proof fn leaves_listed(leaves: Seq<Subtree>, cells: Seq<Cell>)
    requires
        leaves.len() == cells.len(),
        forall|i: int|
            0 <= i < leaves.len() ==> leaf_cell(#[trigger] leaves[i]) == cells[i]
                && leaves[i].children@.len() == 0,
    ensures
        subtree_shapes(leaves) == leaf_shapes(cells),
        subtrees_weight(leaves) == cells_weight(cells),
    decreases leaves.len(),
{
    subtree_shapes_at(leaves);
    if leaves.len() > 0 {
        let less = leaves.drop_last();
        assert forall|i: int| 0 <= i < less.len() implies leaf_cell(#[trigger] less[i])
            == cells.drop_last()[i] && less[i].children@.len() == 0 by {
            assert(leaf_cell(leaves[i]) == cells[i]);
        }
        leaves_listed(less, cells.drop_last());
        one_more(less, leaves.last());
        assert(less.push(leaves.last()) =~= leaves);
        assert(leaf_cell(leaves[leaves.len() - 1]) == cells.last());
        bare(leaves.last());
    }
    assert forall|i: int| 0 <= i < leaves.len() implies #[trigger] subtree_shapes(leaves)[i]
        == leaf_shapes(cells)[i] by {
        assert(leaf_cell(leaves[i]) == cells[i]);
        bare(leaves[i]);
    }
    assert(subtree_shapes(leaves) =~= leaf_shapes(cells));
}

/// The first of several directories come to no more than all of them.
proof fn first_weigh_less(dirs: Seq<(Seq<char>, Cell)>, below: Seq<Listing>, rules: Rules, k: int)
    requires
        0 <= k < below.len(),
    ensures
        weigh_all(dirs, below.take(k + 1), rules) == weigh_all(dirs, below.take(k), rules).plus(
            weigh(dirs[k].1, below[k], rules),
        ),
        weigh_all(dirs, below.take(k + 1), rules).size <= weigh_all(dirs, below, rules).size,
        weigh_all(dirs, below.take(k + 1), rules).logical_size <= weigh_all(
            dirs,
            below,
            rules,
        ).logical_size,
        weigh_all(dirs, below.take(k + 1), rules).file_count <= weigh_all(
            dirs,
            below,
            rules,
        ).file_count,
        weigh_all(dirs, below.take(k + 1), rules).nodes <= weigh_all(dirs, below, rules).nodes,
    decreases below.len() - k,
{
    assert(below.take(k + 1).drop_last() =~= below.take(k));
    if k + 1 < below.len() {
        first_weigh_less(dirs, below, rules, k + 1);
    } else {
        assert(below.take(k + 1) =~= below);
    }
}

/// Walks a directory over what was read: its subtree, counted and in order. The counters
/// learn of everything that was met.
pub fn walk_dir(
    path: &str,
    node: Node,
    listing: &Listing,
    options: &ScanOptions,
    root_dev: u64,
    progress: &mut ScanProgress,
) -> (subtree: Subtree)
    requires
        recorded(*listing, rules_of(*options, root_dev)),
        weigh(node_cell(node, None, None), *listing, rules_of(*options, root_dev)).fits(),
    ensures
        subtree_shape(subtree) == branch(
            node_cell(node, None, None),
            *listing,
            rules_of(*options, root_dev),
        ),
        nodes_in(subtree) == weigh(
            node_cell(node, None, None),
            *listing,
            rules_of(*options, root_dev),
        ).nodes,
        heavy(subtree),
        final(progress)@ == counted(
            old(progress)@,
            path@,
            node_cell(node, None, None),
            *listing,
            rules_of(*options, root_dev),
        ),
    decreases listing,
{
    let ghost rules = rules_of(*options, root_dev);
    let ghost cell = node_cell(node, None, None);
    progress.enter(path);
    match listing {
        Listing::Cancelled => {
            let subtree: Subtree = cancelled_dir(node, progress);
            proof {
                bare(subtree);
            }
            subtree
        },
        Listing::Unreadable(message) => {
            let subtree: Subtree = unreadable_dir(node, message, progress);
            proof {
                bare(subtree);
            }
            subtree
        },
        Listing::Read { entries, below } => {
            let ghost n = entries@.len();
            let ghost walked = rules.over(entries@);
            let ghost whole = weigh(cell, *listing, rules);
            let Survey { dirs, leaves, unreadable }: Survey = survey(
                entries,
                options,
                root_dev,
                progress,
            );
            let ghost listed = progress@;
            let ghost asked = dirs@;
            let mut subdirs: Vec<Subtree> = Vec::new();
            let mut i: usize = 0;
            assert(below@.take(0) =~= Seq::empty());
            assert(subtree_shapes(subdirs@) =~= branches(walked.dirs(n), below@.take(0), rules));
            for dir in it: dirs
                invariant
                    i == it.index(),
                    it.seq() == asked,
                    i <= below@.len(),
                    asked.len() == below@.len(),
                    subdirs@.len() == i,
                    rules == rules_of(*options, root_dev),
                    asked.len() == walked.dirs(n).len(),
                    forall|k: int|
                        0 <= k < asked.len() ==> (#[trigger] asked[k]).0@ == walked.dirs(n)[k].0
                            && node_cell(asked[k].1, None, None) == walked.dirs(n)[k].1,
                    forall|k: int|
                        0 <= k < below@.len() ==> recorded(#[trigger] below@[k], rules),
                    weigh_all(walked.dirs(n), below@, rules).fits(),
                    progress@ == counted_all(
                        listed,
                        walked.dirs(n),
                        below@.take(i as int),
                        rules,
                    ),
                    subtree_shapes(subdirs@) == branches(
                        walked.dirs(n),
                        below@.take(i as int),
                        rules,
                    ),
                    subtrees_weight(subdirs@) == weigh_all(
                        walked.dirs(n),
                        below@.take(i as int),
                        rules,
                    ),
                    forall|k: int| 0 <= k < subdirs@.len() ==> heavy(#[trigger] subdirs@[k]),
                    *listing matches Listing::Read { entries: _, below: b } && b == below,
            {
                let ghost before = subdirs@;
                proof {
                    assert(dir == asked[i as int]);
                    first_weigh_less(walked.dirs(n), below@, rules, i as int);
                    assert(below@.take(i + 1).drop_last() =~= below@.take(i as int));
                    assert(recorded(below@[i as int], rules));
                }
                let subdir: Subtree = walk_dir(
                    &dir.0,
                    dir.1,
                    &below[i],
                    options,
                    root_dev,
                    progress,
                );
                proof {
                    one_more(before, subdir);
                    assert(before.push(subdir).drop_last() =~= before);
                }
                subdirs.push(subdir);
                assert(i < below.len());
                i += 1;
            }
            proof {
                assert(below@.take(below@.len() as int) =~= below@);
                leaves_listed(leaves@, walked.leaves(n));
                leaves_are_heavy(leaves@);
                together(leaves@, subdirs@);
            }
            let ghost children = leaves@ + subdirs@;
            let subtree: Subtree = close_dir(node, leaves, subdirs, unreadable, progress);
            proof {
                subtree_shapes_at(children);
                subtree_shapes_at(leaves@);
                subtree_shapes_at(subdirs@);
                assert(subtree_shapes(children) =~= subtree_shapes(leaves@) + subtree_shapes(
                    subdirs@,
                ));
            }
            subtree
        },
    }
}

/// Whether `tree` is the tree of a directory that was read, with the data of linked entries
/// counted once, which left `skipped` of them without.
pub open spec fn scanned(
    cell: Cell,
    listing: Listing,
    rules: Rules,
    tree: Tree,
    skipped: u64,
) -> bool {
    exists|subtree: Subtree| #[trigger]
        scans(subtree, tree, skipped) && subtree_shape(subtree) == branch(cell, listing, rules)
}

/// What was read decides the tree of a scan, id by id, and how many links were skipped.
pub proof fn what_was_read_decides_the_scan(
    cell: Cell,
    listing: Listing,
    rules: Rules,
    a: Tree,
    b: Tree,
    skipped: u64,
    others: u64,
)
    requires
        scanned(cell, listing, rules, a, skipped),
        scanned(cell, listing, rules, b, others),
    ensures
        a.cells() == b.cells(),
        skipped == others,
{
    let walked = choose|subtree: Subtree| #[trigger]
        scans(subtree, a, skipped) && subtree_shape(subtree) == branch(cell, listing, rules);
    let again = choose|subtree: Subtree| #[trigger]
        scans(subtree, b, others) && subtree_shape(subtree) == branch(cell, listing, rules);
    a_walk_has_one_tree(walked, again, a, b, skipped, others);
}

/// A scan of the options' root over what was read: `stat` describes what the root leads to,
/// a link followed, and `listing` is what was read there. A root that is no directory, or
/// that cannot be looked at, is not scanned.
pub fn scan(
    options: &ScanOptions,
    stat: &Result<Facts, IoError>,
    listing: &Listing,
    started_at: Timestamp,
    duration_ms: u64,
    progress: &mut ScanProgress,
) -> (scan: Result<ScanResult, ScanError>)
    requires
        stat matches Ok(facts) ==> facts.blocks * 512 <= u64::MAX,
        stat matches Ok(facts) ==> (facts.is_dir ==> recorded(
            *listing,
            rules_of(*options, facts.dev),
        )),
        stat matches Ok(facts) ==> (facts.is_dir ==> weigh(
            cell_of(normal(options.root@), *facts),
            *listing,
            rules_of(*options, facts.dev),
        ).fits()),
    ensures
        match *stat {
            Err(io) => scan is Err && root_error(scan->Err_0, normal(options.root@), io)
                && final(progress)@ == old(progress)@,
            Ok(facts) => if !facts.is_dir {
                &&& scan matches Err(ScanError::NotADirectory(path)) && path@ == normal(
                    options.root@,
                )
                &&& final(progress)@ == old(progress)@
            } else {
                &&& scan matches Ok(result)
                &&& result.root@ == normal(options.root@)
                &&& result.started_at == started_at
                &&& result.duration_ms == duration_ms
                &&& result.cancelled == old(progress)@.cancelled
                &&& result.tree.cells().len() > 0
                &&& scanned(
                    cell_of(normal(options.root@), facts),
                    *listing,
                    rules_of(*options, facts.dev),
                    result.tree,
                    result.stats.hardlinks_skipped,
                )
                &&& final(progress)@ == counted(
                    old(progress)@,
                    normal(options.root@),
                    cell_of(normal(options.root@), facts),
                    *listing,
                    rules_of(*options, facts.dev),
                )
                &&& result.stats.files == final(progress)@.files
                &&& result.stats.dirs == final(progress)@.dirs
                &&& result.stats.errors == final(progress)@.errors
                &&& result.stats.bytes == result.tree.cells()[0].size
            },
        },
{
    let node: Node = match open_root(options, stat) {
        Ok(node) => node,
        Err(error) => {
            return Err(error);
        },
    };
    let root_dev: u64 = match stat {
        Ok(facts) => facts.dev,
        Err(_) => 0,
    };
    let root: String = options.clean_root();
    let ghost start = progress@;
    let subtree: Subtree = walk_dir(&root, node, listing, options, root_dev, progress);
    let ghost whole = subtree;
    // Read before flattening: a cancel that arrives while a complete tree is being flattened
    // must not label it as partial.
    let cancelled: bool = progress.is_cancelled();
    proof {
        counting_does_not_cancel(
            start,
            root@,
            node_cell(node, None, None),
            *listing,
            rules_of(*options, root_dev),
        );
    }
    let result: ScanResult = finish_scan(
        subtree,
        root,
        started_at,
        duration_ms,
        cancelled,
        progress,
    );
    assert(scans(whole, result.tree, result.stats.hardlinks_skipped));
    Ok(result)
}

proof fn errors_do_not_cancel(start: ProgressSpec, count: nat)
    ensures
        start.with_errors(count).cancelled == start.cancelled,
    decreases count,
{
    if count > 0 {
        errors_do_not_cancel(start, (count - 1) as nat);
    }
}

proof fn listing_does_not_cancel(walked: Walked, start: ProgressSpec, k: nat)
    ensures
        walked.progress(start, k).cancelled == start.cancelled,
    decreases k,
{
    if k > 0 {
        listing_does_not_cancel(walked, start, (k - 1) as nat);
    }
}

/// Counting leaves the request to stop alone.
proof fn counting_does_not_cancel(
    start: ProgressSpec,
    path: Seq<char>,
    cell: Cell,
    listing: Listing,
    rules: Rules,
)
    ensures
        counted(start, path, cell, listing, rules).cancelled == start.cancelled,
    decreases listing,
{
    if let Listing::Read { entries, below } = listing {
        let n = entries@.len();
        let walked = rules.over(entries@);
        let entered = ProgressSpec { current_path: path, ..start };
        listing_does_not_cancel(walked, entered, n);
        counting_all_does_not_cancel(
            walked.progress(entered, n),
            walked.dirs(n),
            below@,
            rules,
        );
        errors_do_not_cancel(
            counted_all(walked.progress(entered, n), walked.dirs(n), below@, rules).with_dir(
                cell.size,
            ),
            walked.unreadable(n),
        );
    }
}

proof fn counting_all_does_not_cancel(
    start: ProgressSpec,
    dirs: Seq<(Seq<char>, Cell)>,
    below: Seq<Listing>,
    rules: Rules,
)
    ensures
        counted_all(start, dirs, below, rules).cancelled == start.cancelled,
    decreases below,
{
    if below.len() > 0 {
        counting_all_does_not_cancel(start, dirs, below.drop_last(), rules);
        counting_does_not_cancel(
            counted_all(start, dirs, below.drop_last(), rules),
            dirs[below.len() - 1].0,
            dirs[below.len() - 1].1,
            below.last(),
            rules,
        );
    }
}

} // verus!
