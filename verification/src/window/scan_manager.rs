//! The one scan a window runs at a time: what starting, finishing and failing make of it,
//! what its status says, and how a deletion is patched into the tree it holds.
//!
//! The walk runs elsewhere and hands in what it found; the clock and the live counters are
//! handed in too.

use super::views::{ScanState, ScanStatus};
use crate::action::model::Timestamp;
use crate::order::{arrangement, arranges_reaches, in_order, picked_in_order, sort, Ranked};
use crate::scan::progress::{ProgressSnapshot, ProgressSpec, ScanProgress};
use crate::scan::tree::ceiling::{brought_by, patches_bring_what_they_hold};
use crate::scan::tree::rebuild::replace_subtrees;
use crate::scan::tree::splice::{applicable, patched};
use crate::scan::tree::{breadth_first, found_at, path_of, shape_len};
use crate::scan::tree::{Cell, Node, NodeId, NodeKind, Tree};
use crate::scan::walker::{ScanOptions, ScanResult, ScanStats};
use crate::snapshot::delta::{at_most_first, changes, comparable, delta_views, deltas, growers_of};
use crate::snapshot::delta::{top_growers, Delta};
use crate::snapshot::model::{entry_paths, entry_views, recorded_of, SizeIndex, Snapshot};
use crate::snapshot::model::{SnapshotEntry, SnapshotSpec, SNAPSHOT_FORMAT};
use crate::snapshot::DEFAULT_FILE_THRESHOLD;
use crate::text::{copy_opt, opt_text, texts};
use vstd::prelude::*;

verus! {

/// Growers computed when a scan finishes; the window takes a prefix of them.
pub const GROWERS_KEPT: usize = 50;

/// How often the status is reported while a scan runs, in milliseconds.
pub const PROGRESS_INTERVAL: u64 = 250;

pub const PROGRESS_EVENT: &'static str = "scan:progress";

pub const DONE_EVENT: &'static str = "scan:done";

/// The scan of a window and what it found.
pub struct ScanManager {
    pub state: ScanState,
    /// Bumped by every start and by every splice: both replace every id.
    pub generation: u64,
    pub root: Option<String>,
    pub duration_ms: u64,
    pub result: Option<ScanResult>,
    pub previous_sizes: Option<SizeIndex>,
    pub previous_taken_at: Option<Timestamp>,
    pub growers: Vec<Delta>,
    pub error: Option<String>,
}

/// A scan that ran to its end, with what the snapshot store knew about its root.
pub struct Finished {
    pub result: ScanResult,
    pub previous_taken_at: Option<Timestamp>,
    /// Sizes by path of the previous snapshot of the same root.
    pub previous_sizes: Option<SizeIndex>,
    pub growers: Vec<Delta>,
}

/// Whether the sizes of a tree can be taken the difference of.
pub open spec fn tree_comparable(cells: Seq<Cell>) -> bool {
    forall|i: int| 0 <= i < cells.len() ==> (#[trigger] cells[i]).size <= i64::MAX
}

/// The snapshot of a finished scan.
pub open spec fn snapshot_of(result: ScanResult) -> SnapshotSpec {
    SnapshotSpec {
        format: SNAPSHOT_FORMAT,
        taken_at: result.started_at,
        root: result.root@,
        total_bytes: result.tree.cells()[0].size,
        file_count: result.tree.cells()[0].file_count as u64,
        file_threshold: DEFAULT_FILE_THRESHOLD,
        entries: recorded_of(
            result.tree.cells(),
            DEFAULT_FILE_THRESHOLD,
            result.tree.cells().len(),
        ),
    }
}

proof fn recorded_comparable(cells: Seq<Cell>, threshold: u64, k: nat)
    requires
        tree_comparable(cells),
        k <= cells.len(),
    ensures
        forall|i: int|
            0 <= i < recorded_of(cells, threshold, k).len() ==> (#[trigger] recorded_of(
                cells,
                threshold,
                k,
            )[i]).size <= i64::MAX,
    decreases k,
{
    if k > 0 {
        recorded_comparable(cells, threshold, (k - 1) as nat);
        assert(cells[k - 1].size <= i64::MAX);
    }
}

impl Finished {
    /// What a finished scan comes to, and the snapshot of it that is to be saved: a complete
    /// scan is compared with the previous snapshot of the same root. A cancelled scan is
    /// partial: it is neither saved nor compared.
    pub fn persist(result: ScanResult, previous: Option<Snapshot>) -> (done: (
        Finished,
        Option<Snapshot>,
    ))
        requires
            result.tree.cells().len() > 0,
            !result.cancelled && previous is Some ==> tree_comparable(result.tree.cells())
                && comparable(previous->0.entries@),
        ensures
            done.0.result == result,
            result.cancelled ==> {
                &&& done.1 is None
                &&& done.0.previous_taken_at is None
                &&& done.0.previous_sizes is None
                &&& done.0.growers@.len() == 0
            },
            !result.cancelled ==> {
                &&& done.1 is Some
                &&& done.1->0@ == snapshot_of(result)
                &&& match previous {
                    None => {
                        &&& done.0.previous_taken_at is None
                        &&& done.0.previous_sizes is None
                        &&& done.0.growers@.len() == 0
                    },
                    Some(before) => {
                        &&& done.0.previous_taken_at == Some(before.taken_at)
                        &&& done.0.previous_sizes is Some
                        &&& done.0.previous_sizes->0.paths() == entry_paths(before.entries@)
                        &&& done.0.previous_sizes->0.sizes() == before.entries@.map_values(
                            |entry: SnapshotEntry| entry.size,
                        )
                        &&& delta_views(done.0.growers@) == growers_of(
                            changes(entry_views(before.entries@), snapshot_of(result).entries),
                            GROWERS_KEPT as int,
                        )
                    },
                }
            },
    {
        if result.cancelled {
            return (
                Finished {
                    result,
                    previous_taken_at: None,
                    previous_sizes: None,
                    growers: Vec::new(),
                },
                None,
            );
        }
        let current: Snapshot = Snapshot::from_result(&result, DEFAULT_FILE_THRESHOLD);
        match previous {
            None => (
                Finished {
                    result,
                    previous_taken_at: None,
                    previous_sizes: None,
                    growers: Vec::new(),
                },
                Some(current),
            ),
            Some(before) => {
                proof {
                    recorded_comparable(
                        result.tree.cells(),
                        DEFAULT_FILE_THRESHOLD,
                        result.tree.cells().len(),
                    );
                    assert forall|i: int| 0 <= i < current.entries@.len() implies (
                    #[trigger] current.entries@[i]).size <= i64::MAX by {
                        assert(current@.entries[i] == current.entries@[i]@);
                    }
                }
                let changed: Vec<Delta> = deltas(&before, &current);
                let growers: Vec<Delta> = top_growers(&changed, GROWERS_KEPT);
                let sizes: SizeIndex = before.size_index();
                (
                    Finished {
                        result,
                        previous_taken_at: Some(before.taken_at),
                        previous_sizes: Some(sizes),
                        growers,
                    },
                    Some(current),
                )
            },
        }
    }
}

/// Whether `status` is what a manager says of itself, with the live counters and the time a
/// running scan has taken so far.
pub open spec fn says(
    status: ScanStatus,
    manager: ScanManager,
    live: ProgressSnapshot,
    elapsed_ms: u64,
) -> bool {
    let running = manager.state == ScanState::Running;
    &&& status.state == manager.state
    &&& opt_text(status.root) == opt_text(manager.root)
    &&& match manager.result {
        Some(result) => {
            &&& status.files == result.stats.files
            &&& status.dirs == result.stats.dirs
            &&& status.bytes == result.stats.bytes
            &&& status.errors == result.stats.errors
        },
        None => {
            &&& status.files == live.files
            &&& status.dirs == live.dirs
            &&& status.bytes == live.bytes
            &&& status.errors == live.errors
        },
    }
    &&& status.current_path@ == if running {
        live.current_path@
    } else {
        Seq::empty()
    }
    &&& status.duration_ms == if running {
        elapsed_ms
    } else {
        manager.duration_ms
    }
    &&& opt_text(status.error) == opt_text(manager.error)
    &&& status.has_previous == manager.previous_sizes is Some
    &&& status.previous_taken_at == manager.previous_taken_at
}

/// How many of the first `k` nodes are directories.
pub open spec fn dirs_among(cells: Seq<Cell>, k: nat) -> nat
    decreases k,
{
    if k == 0 {
        0
    } else {
        dirs_among(cells, (k - 1) as nat) + if cells[k - 1].kind == NodeKind::Dir {
            1nat
        } else {
            0
        }
    }
}

/// The stats of a scan whose tree was patched: what describes the tree is read off it, what
/// describes the walk stays.
pub open spec fn stats_of(stats: ScanStats, cells: Seq<Cell>) -> ScanStats {
    ScanStats {
        files: cells[0].file_count as u64,
        dirs: dirs_among(cells, cells.len()) as u64,
        bytes: cells[0].size,
        errors: stats.errors,
        hardlinks_skipped: stats.hardlinks_skipped,
    }
}

/// The stats of a scan whose tree has just been patched.
///
/// `bytes`, `files` and `dirs` describe the tree, and the tree has changed: a header that
/// disagrees with the rows below it, or with the free space the batch just gave back, is a
/// header nobody can trust. `errors` and `hardlinks_skipped` describe the walk instead: a
/// patch has nothing to say about what a scan met on its way.
pub fn patched_stats(stats: &ScanStats, tree: &Tree) -> (patched: ScanStats)
    requires
        tree.cells().len() > 0,
    ensures
        patched == stats_of(*stats, tree.cells()),
{
    proof {
        use_type_invariant(tree);
    }
    let ghost cells = tree.cells();
    let nodes: Vec<(NodeId, &Node)> = tree.iter();
    let mut dirs: u64 = 0;
    let mut i: usize = 0;
    while i < nodes.len()
        invariant
            i <= nodes.len(),
            cells == tree.cells(),
            nodes@.len() == cells.len(),
            cells.len() <= u32::MAX,
            forall|k: int| 0 <= k < nodes@.len() ==> *(#[trigger] nodes@[k]).1 == tree.arena()[k],
            dirs == dirs_among(cells, i as nat),
            dirs <= i,
        decreases nodes.len() - i,
    {
        assert(*nodes@[i as int].1 == tree.arena()[i as int]);
        if nodes[i].1.kind == NodeKind::Dir {
            dirs += 1;
        }
        i += 1;
    }
    let root: &Node = tree.root();
    ScanStats {
        files: root.file_count as u64,
        dirs,
        bytes: root.size,
        errors: stats.errors,
        hardlinks_skipped: stats.hardlinks_skipped,
    }
}

/// Whether the tree the manager holds can still be shown as a description of the disk.
#[derive(Debug, Clone, Copy, PartialEq, Eq, Structural)]
pub enum TreeState {
    /// The tree describes the disk as well as it did before the batch.
    Current,
    /// At least one row the batch deleted is still in the tree, and only a scan can put it
    /// right.
    Stale,
}

impl TreeState {
    /// `installed`: the splice landed. `complete`: every path of the batch produced a patch
    /// to splice. Anything less than both is a tree with a row nobody can act on.
    pub fn of(installed: bool, complete: bool) -> (state: TreeState)
        ensures
            state == if installed && complete {
                TreeState::Current
            } else {
                TreeState::Stale
            },
    {
        if installed && complete {
            TreeState::Current
        } else {
            TreeState::Stale
        }
    }
}

/// Whether a node below the root is one of the paths.
pub open spec fn targeted(cells: Seq<Cell>, paths: Seq<Seq<char>>, id: NodeId) -> bool {
    id != 0 && exists|k: int|
        0 <= k < paths.len() && found_at(cells, #[trigger] paths[k]) == Some(id)
}

/// Whether `ids` are the nodes the paths name, each once, in rising order. The root is not
/// one of them: an arena without one is no tree.
pub open spec fn targets_exactly(ids: Seq<NodeId>, cells: Seq<Cell>, paths: Seq<Seq<char>>) -> bool {
    &&& forall|a: int, b: int| 0 <= a < b < ids.len() ==> (#[trigger] ids[a]) < (#[trigger] ids[b])
    &&& forall|id: NodeId| #[trigger] ids.contains(id) <==> targeted(cells, paths, id)
}

/// The nodes the paths name, each once.
pub fn find_targets(tree: &Tree, paths: &Vec<String>) -> (ids: Vec<NodeId>)
    ensures
        targets_exactly(ids@, tree.cells(), texts(paths@)),
{
    let ghost cells = tree.cells();
    let ghost all = texts(paths@);
    let mut found: Vec<NodeId> = Vec::new();
    let mut i: usize = 0;
    while i < paths.len()
        invariant
            i <= paths.len(),
            cells == tree.cells(),
            all == texts(paths@),
            forall|k: int| 0 <= k < found@.len() ==> targeted(cells, all, #[trigger] found@[k]),
            forall|k: int|
                0 <= k < i ==> (found_at(cells, #[trigger] all[k]) matches Some(id) ==> id == 0
                    || found@.contains(id)),
        decreases paths.len() - i,
    {
        let ghost before = found@;
        assert(all[i as int] == paths@[i as int]@);
        if let Some(id) = tree.find(&paths[i]) {
            if id != Tree::ROOT {
                found.push(id);
                assert(found_at(cells, all[i as int]) == Some(id));
                assert(found@[before.len() as int] == id);
            }
        }
        assert forall|k: int| 0 <= k < i + 1 implies (found_at(
            cells,
            #[trigger] all[k],
        ) matches Some(id) ==> id == 0 || found@.contains(id)) by {
            if let Some(id) = found_at(cells, all[k]) {
                if id != 0 && k < i {
                    assert(before.contains(id));
                    let at = choose|at: int| 0 <= at < before.len() && before[at] == id;
                    assert(found@[at] == id);
                } else if id != 0 {
                    assert(found@[before.len() as int] == id);
                }
            }
        }
        i += 1;
    }
    let ghost list = found@;
    let ranked: Vec<NodeId> = sort(found);
    proof {
        picked_in_order(list, arrangement(list));
    }
    let mut ids: Vec<NodeId> = Vec::new();
    let mut k: usize = 0;
    while k < ranked.len()
        invariant
            k <= ranked.len(),
            in_order(ranked@),
            forall|a: int, b: int|
                0 <= a < b < ids@.len() ==> (#[trigger] ids@[a]) < (#[trigger] ids@[b]),
            forall|a: int| 0 <= a < ids@.len() ==> ranked@.take(k as int).contains(#[trigger] ids@[a]),
            forall|x: int| 0 <= x < k ==> ids@.contains(#[trigger] ranked@[x]),
        decreases ranked.len() - k,
    {
        let ghost before = ids@;
        let ghost seen = ranked@.take(k as int);
        let ghost now = ranked@.take(k + 1);
        let id: NodeId = ranked[k];
        let fresh: bool = ids.len() == 0 || ids[ids.len() - 1] != id;
        proof {
            assert forall|a: int| 0 <= a < before.len() implies (#[trigger] before[a]) <= id by {
                assert(seen.contains(before[a]));
                let x = choose|x: int| 0 <= x < seen.len() && seen[x] == before[a];
                assert(ranked@[x].le(ranked@[k as int]));
            }
        }
        if fresh {
            ids.push(id);
        }
        proof {
            assert forall|a: int, b: int| 0 <= a < b < ids@.len() implies (#[trigger] ids@[a]) < (
            #[trigger] ids@[b]) by {
                if b < before.len() {
                    assert(before[a] < before[b]);
                } else {
                    if a < before.len() - 1 {
                        assert(before[a] < before[before.len() - 1]);
                    }
                    assert(before[before.len() - 1] <= id);
                }
            }
            assert forall|a: int| 0 <= a < ids@.len() implies now.contains(#[trigger] ids@[a]) by {
                if a < before.len() {
                    assert(seen.contains(before[a]));
                    let x = choose|x: int| 0 <= x < seen.len() && seen[x] == before[a];
                    assert(now[x] == ids@[a]);
                } else {
                    assert(now[k as int] == ids@[a]);
                }
            }
            assert forall|x: int| 0 <= x < k + 1 implies ids@.contains(#[trigger] ranked@[x]) by {
                if x < k {
                    assert(before.contains(ranked@[x]));
                    let a = choose|a: int| 0 <= a < before.len() && before[a] == ranked@[x];
                    assert(ids@[a] == ranked@[x]);
                } else {
                    assert(ids@[ids@.len() - 1] == id);
                }
            }
        }
        k += 1;
    }
    proof {
        let order = arrangement(list);
        assert(ranked@.take(ranked@.len() as int) =~= ranked@);
        assert forall|id: NodeId| #[trigger] ids@.contains(id) <==> targeted(cells, all, id) by {
            if ids@.contains(id) {
                let a = choose|a: int| 0 <= a < ids@.len() && ids@[a] == id;
                assert(ranked@.contains(ids@[a]));
                let x = choose|x: int| 0 <= x < ranked@.len() && ranked@[x] == id;
                assert(ranked@[x] == list[order[x] as int]);
            }
            if targeted(cells, all, id) {
                let p = choose|p: int|
                    0 <= p < all.len() && found_at(cells, #[trigger] all[p]) == Some(id);
                assert(list.contains(id));
                let at = choose|at: int| 0 <= at < list.len() && list[at] == id;
                arranges_reaches(list, order, 0, list.len() as int, at);
                let x = choose|x: int| 0 <= x < order.len() && order[x] == at;
                assert(ranked@[x] == list[at]);
                assert(ids@.contains(ranked@[x]));
            }
        }
    }
    ids
}

/// What is to be rescanned for a batch.
pub struct PatchTargets {
    /// The arena the ids belong to.
    pub generation: u64,
    pub ids: Vec<NodeId>,
    /// Where each of them is.
    pub paths: Vec<String>,
    /// The root the scan was made of.
    pub root: String,
}

/// The patches that rescanning several nodes gave, and whether every one could be looked at.
///
/// A path that cannot be rescanned is left out and its branch stays as the scan left it. A
/// path that is gone is not a failure: it comes back as `None`, which is the patch that drops
/// the branch.
pub fn rescan_targets(ids: &Vec<NodeId>, answers: Vec<Option<Option<Tree>>>) -> (gathered: (
    Vec<(NodeId, Option<Tree>)>,
    bool,
))
    requires
        ids@.len() == answers@.len(),
    ensures
        gathered.0@ == patches_from(ids@, answers@, ids@.len()),
        gathered.1 == complete_answers(answers@),
{
    let mut patches: Vec<(NodeId, Option<Tree>)> = Vec::new();
    let mut complete: bool = true;
    let mut i: usize = 0;
    let count: usize = ids.len();
    let ghost all = answers@;
    for answer in it: answers
        invariant
            it.seq() == all,
            count == ids@.len() == all.len(),
            i == it.index(),
            patches@ == patches_from(ids@, all, i as nat),
            complete == (forall|k: int| 0 <= k < i ==> (#[trigger] all[k]) is Some),
    {
        assert(answer == all[i as int]);
        match answer {
            Some(replacement) => {
                patches.push((ids[i], replacement));
            },
            None => {
                complete = false;
            },
        }
        i += 1;
    }
    (patches, complete)
}

/// The patches among the first `k` answers.
pub open spec fn patches_from(
    ids: Seq<NodeId>,
    answers: Seq<Option<Option<Tree>>>,
    k: nat,
) -> Seq<(NodeId, Option<Tree>)>
    decreases k,
{
    if k == 0 {
        Seq::empty()
    } else {
        let before = patches_from(ids, answers, (k - 1) as nat);
        match answers[k - 1] {
            Some(replacement) => before.push((ids[k - 1], replacement)),
            None => before,
        }
    }
}

/// Whether `after` is `before` with the patches spliced into its tree: the facts about the
/// tree are counted again, what the walk met stays, and the ids are those of a new arena.
pub open spec fn spliced(
    before: ScanManager,
    after: ScanManager,
    patches: Seq<(NodeId, Option<Tree>)>,
) -> bool {
    let was = before.result->0;
    let is = after.result->0;
    &&& after.result is Some
    &&& is.tree.wf()
    &&& is.tree.cells().len() > 0
    &&& breadth_first(is.tree.cells())
    &&& Some(is.tree.shape()) == patched(
        was.tree.cells(),
        applicable(was.tree.cells(), patches),
        0,
    )
    &&& is.stats == stats_of(was.stats, is.tree.cells())
    &&& is.root == was.root
    &&& is.started_at == was.started_at
    &&& is.duration_ms == was.duration_ms
    &&& is.cancelled == was.cancelled
    &&& after.generation == before.generation + 1
    &&& after.state == before.state
    &&& after.root == before.root
    &&& after.duration_ms == before.duration_ms
    &&& after.previous_sizes == before.previous_sizes
    &&& after.previous_taken_at == before.previous_taken_at
    &&& after.growers == before.growers
    &&& after.error == before.error
}

/// A patch made for the tree a splice replaced is dropped: its ids mean nothing in the new
/// arena, whatever it brings.
pub proof fn a_patch_of_a_replaced_tree_is_dropped(
    before: ScanManager,
    after: ScanManager,
    patches: Seq<(NodeId, Option<Tree>)>,
    generation: u64,
    late: Seq<(NodeId, Option<Tree>)>,
)
    requires
        spliced(before, after, patches),
        generation <= before.generation,
    ensures
        !after.accepts(generation, late),
{
}

/// Whether every rescan could be made.
pub open spec fn complete_answers(answers: Seq<Option<Option<Tree>>>) -> bool {
    forall|i: int| 0 <= i < answers.len() ==> (#[trigger] answers[i]) is Some
}

/// Whether a tree with these patches still fits an arena.
pub open spec fn splice_holds(tree: Tree, patches: Seq<(NodeId, Option<Tree>)>) -> bool {
    tree.cells().len() > 0 ==> shape_len(
        patched(tree.cells(), applicable(tree.cells(), patches), 0)->0,
    ) <= u32::MAX
}

/// Whether the nodes of a tree and those its patches bring all fit an arena together, which
/// is more than the splice needs.
pub fn splice_fits(tree: &Tree, patches: &Vec<(NodeId, Option<Tree>)>) -> (r: bool)
    ensures
        r == (tree.cells().len() + brought_by(patches@) <= u32::MAX),
        r ==> splice_holds(*tree, patches@),
{
    proof {
        use_type_invariant(tree);
    }
    let mut sum: u64 = tree.len() as u64;
    let mut i: usize = 0;
    assert(patches@.take(0) =~= Seq::empty());
    while i < patches.len()
        invariant
            i <= patches.len(),
            sum == tree.cells().len() + brought_by(patches@.take(i as int)),
            sum <= u32::MAX,
            forall|k: int|
                0 <= k < i ==> ((#[trigger] patches@[k]).1 matches Some(part) ==> part.wf()),
        decreases patches.len() - i,
    {
        assert(patches@.take(i + 1).drop_last() =~= patches@.take(i as int));
        assert(patches@.take(i + 1).last() == patches@[i as int]);
        if let Some(part) = &patches[i].1 {
            proof {
                use_type_invariant(part);
            }
            sum = sum + part.len() as u64;
            if sum > u32::MAX as u64 {
                proof {
                    brought_rises(patches@, i + 1);
                }
                return false;
            }
        }
        i += 1;
    }
    proof {
        assert(patches@.take(patches@.len() as int) =~= patches@);
        if tree.cells().len() > 0 {
            patches_bring_what_they_hold(*tree, patches@);
        }
    }
    true
}

proof fn brought_rises(patches: Seq<(NodeId, Option<Tree>)>, k: int)
    requires
        0 <= k <= patches.len(),
    ensures
        brought_by(patches.take(k)) <= brought_by(patches),
    decreases patches.len(),
{
    if k == patches.len() {
        assert(patches.take(k) =~= patches);
    } else {
        assert(patches.drop_last().take(k) =~= patches.take(k));
        brought_rises(patches.drop_last(), k);
    }
}

impl ScanManager {
    /// A window that has scanned nothing.
    pub fn new() -> (manager: ScanManager)
        ensures
            manager.state == ScanState::Idle,
            manager.generation == 0,
            manager.root is None,
            manager.duration_ms == 0,
            manager.result is None,
            manager.previous_sizes is None,
            manager.previous_taken_at is None,
            manager.growers@.len() == 0,
            manager.error is None,
    {
        ScanManager {
            state: ScanState::Idle,
            generation: 0,
            root: None,
            duration_ms: 0,
            result: None,
            previous_sizes: None,
            previous_taken_at: None,
            growers: Vec::new(),
            error: None,
        }
    }

    /// Live counters while a scan runs, the final numbers afterwards.
    pub fn status(&self, live: &ProgressSnapshot, elapsed_ms: u64) -> (status: ScanStatus)
        ensures
            says(status, *self, *live, elapsed_ms),
    {
        let running: bool = self.state == ScanState::Running;
        let (files, dirs, bytes, errors): (u64, u64, u64, u64) = match &self.result {
            Some(result) => (
                result.stats.files,
                result.stats.dirs,
                result.stats.bytes,
                result.stats.errors,
            ),
            None => (live.files, live.dirs, live.bytes, live.errors),
        };
        let current_path: String = if running {
            live.current_path.clone()
        } else {
            String::new()
        };
        assert(!running ==> current_path@ =~= Seq::empty());
        ScanStatus {
            state: self.state,
            root: copy_opt(&self.root),
            files,
            dirs,
            bytes,
            errors,
            current_path,
            duration_ms: if running {
                elapsed_ms
            } else {
                self.duration_ms
            },
            error: copy_opt(&self.error),
            has_previous: self.previous_sizes.is_some(),
            previous_taken_at: self.previous_taken_at,
        }
    }

    /// Root of the current or last scan.
    pub fn root(&self) -> (root: Option<String>)
        ensures
            opt_text(root) == opt_text(self.root),
    {
        copy_opt(&self.root)
    }

    /// Starts a scan of `root`: the generation it runs under, and the result it replaces. One
    /// scan runs at a time.
    pub fn start(&mut self, root: String) -> (started: Result<(u64, Option<ScanResult>), String>)
        requires
            old(self).generation < u64::MAX,
        ensures
            old(self).state == ScanState::Running ==> {
                &&& *final(self) == *old(self)
                &&& started is Err
                &&& started->Err_0@ == "a scan is already running"@
            },
            old(self).state != ScanState::Running ==> {
                &&& started == Ok::<(u64, Option<ScanResult>), String>(
                    ((old(self).generation + 1) as u64, old(self).result),
                )
                &&& final(self).state == ScanState::Running
                &&& final(self).generation == old(self).generation + 1
                &&& final(self).root == Some(root)
                &&& final(self).duration_ms == 0
                &&& final(self).result is None
                &&& final(self).previous_sizes is None
                &&& final(self).previous_taken_at is None
                &&& final(self).growers@.len() == 0
                &&& final(self).error is None
            },
    {
        if self.state == ScanState::Running {
            return Err("a scan is already running".to_owned());
        }
        let mut previous: Option<ScanResult> = None;
        core::mem::swap(&mut previous, &mut self.result);
        self.state = ScanState::Running;
        self.generation = self.generation + 1;
        self.root = Some(root);
        self.duration_ms = 0;
        self.previous_sizes = None;
        self.previous_taken_at = None;
        self.growers = Vec::new();
        self.error = None;
        Ok((self.generation, previous))
    }

    /// Asks the running scan to stop; the state becomes `Cancelled` once the walk has
    /// finished with the partial tree.
    pub fn cancel(&self, progress: &mut ScanProgress)
        ensures
            final(progress)@ == if self.state == ScanState::Running {
                ProgressSpec { cancelled: true, ..old(progress)@ }
            } else {
                old(progress)@
            },
    {
        if self.state == ScanState::Running {
            progress.cancel();
        }
    }

    /// The last result and the sizes of the previous snapshot; `None` while there is no
    /// result (idle, running or failed).
    pub fn with_result(&self) -> (held: Option<(&ScanResult, Option<&SizeIndex>)>)
        ensures
            match (held, self.result) {
                (Some((result, sizes)), Some(expected)) => *result == expected && match (
                    sizes,
                    self.previous_sizes,
                ) {
                    (Some(sizes), Some(expected)) => *sizes == expected,
                    (None, None) => true,
                    _ => false,
                },
                (None, None) => true,
                _ => false,
            },
    {
        match &self.result {
            None => None,
            Some(result) => match &self.previous_sizes {
                Some(sizes) => Some((result, Some(sizes))),
                None => Some((result, None)),
            },
        }
    }

    /// The largest growers since the previous snapshot, at most `limit` of the
    /// [`GROWERS_KEPT`] computed when the scan finished.
    pub fn growers(&self, limit: usize) -> (growers: Vec<Delta>)
        ensures
            delta_views(growers@) == at_most_first(delta_views(self.growers@), limit as int),
    {
        let count: usize = if self.growers.len() <= limit {
            self.growers.len()
        } else {
            limit
        };
        let mut growers: Vec<Delta> = Vec::new();
        let mut i: usize = 0;
        while i < count
            invariant
                i <= count <= self.growers@.len(),
                growers@.len() == i,
                forall|k: int| 0 <= k < i ==> (#[trigger] growers@[k])@ == self.growers@[k]@,
            decreases count - i,
        {
            let delta: &Delta = &self.growers[i];
            growers.push(
                Delta {
                    path: delta.path.clone(),
                    kind: delta.kind,
                    before: delta.before,
                    after: delta.after,
                    delta: delta.delta,
                },
            );
            i += 1;
        }
        assert(delta_views(growers@) =~= at_most_first(
            delta_views(self.growers@),
            limit as int,
        ));
        growers
    }

    /// Whether the progress of the scan of `generation` is still reported: it runs, and no
    /// later one has started.
    pub fn ticks(&self, generation: u64) -> (r: bool)
        ensures
            r == (self.generation == generation && self.state == ScanState::Running),
    {
        self.generation == generation && self.state == ScanState::Running
    }

    /// A scan came to its end.
    pub fn complete(&mut self, finished: Finished)
        ensures
            final(self).state == if finished.result.cancelled {
                ScanState::Cancelled
            } else {
                ScanState::Done
            },
            final(self).generation == old(self).generation,
            final(self).root == old(self).root,
            final(self).duration_ms == finished.result.duration_ms,
            final(self).result == Some(finished.result),
            final(self).previous_sizes == finished.previous_sizes,
            final(self).previous_taken_at == finished.previous_taken_at,
            final(self).growers == finished.growers,
            final(self).error == old(self).error,
    {
        self.state = if finished.result.cancelled {
            ScanState::Cancelled
        } else {
            ScanState::Done
        };
        self.duration_ms = finished.result.duration_ms;
        self.previous_taken_at = finished.previous_taken_at;
        self.previous_sizes = finished.previous_sizes;
        self.growers = finished.growers;
        self.result = Some(finished.result);
    }

    /// A scan failed, after `elapsed_ms`.
    pub fn fail(&mut self, message: String, elapsed_ms: u64)
        ensures
            final(self).state == ScanState::Failed,
            final(self).generation == old(self).generation,
            final(self).root == old(self).root,
            final(self).duration_ms == elapsed_ms,
            final(self).result == old(self).result,
            final(self).previous_sizes == old(self).previous_sizes,
            final(self).previous_taken_at == old(self).previous_taken_at,
            final(self).growers == old(self).growers,
            final(self).error == Some(message),
    {
        self.state = ScanState::Failed;
        self.error = Some(message);
        self.duration_ms = elapsed_ms;
    }

    /// What a batch over `paths` has to rescan. `None` when there is nothing to do: no result
    /// is held, or the tree knows none of the paths.
    pub fn patch_targets(&self, paths: &Vec<String>) -> (targets: Option<PatchTargets>)
        ensures
            match self.result {
                None => targets is None,
                Some(result) => match targets {
                    None => forall|id: NodeId|
                        !#[trigger] targeted(result.tree.cells(), texts(paths@), id),
                    Some(targets) => {
                        &&& targets.ids@.len() > 0
                        &&& targets.generation == self.generation
                        &&& targets.root@ == result.root@
                        &&& targets_exactly(targets.ids@, result.tree.cells(), texts(paths@))
                        &&& targets.paths@.len() == targets.ids@.len()
                        &&& forall|k: int|
                            0 <= k < targets.ids@.len() ==> (#[trigger] targets.paths@[k])@
                                == path_of(result.tree.cells(), targets.ids@[k] as int)
                    },
                },
            },
    {
        let result: &ScanResult = match &self.result {
            Some(result) => result,
            None => {
                return None;
            },
        };
        let ids: Vec<NodeId> = find_targets(&result.tree, paths);
        if ids.len() == 0 {
            assert forall|id: NodeId| !#[trigger] targeted(
                result.tree.cells(),
                texts(paths@),
                id,
            ) by {
                assert(!ids@.contains(id));
            }
            return None;
        }
        let mut spelled: Vec<String> = Vec::new();
        let mut i: usize = 0;
        while i < ids.len()
            invariant
                i <= ids.len(),
                spelled@.len() == i,
                forall|k: int|
                    0 <= k < i ==> (#[trigger] spelled@[k])@ == path_of(
                        result.tree.cells(),
                        ids@[k] as int,
                    ),
            decreases ids.len() - i,
        {
            spelled.push(result.tree.path(ids[i]));
            i += 1;
        }
        Some(
            PatchTargets {
                generation: self.generation,
                ids,
                paths: spelled,
                root: result.root.clone(),
            },
        )
    }

    /// Whether patches are spliced in: there are some, and the arena they were made for is
    /// still the one that is held.
    pub open spec fn accepts(self, generation: u64, patches: Seq<(NodeId, Option<Tree>)>) -> bool {
        patches.len() > 0 && self.generation == generation && self.result is Some
    }

    /// The whole batch in one splice, or nothing. `true` when the tree changed: `false` says
    /// the patch was dropped, which is what leaves the tree stale.
    ///
    /// Installing it bumps the generation: every id in the arena is a new id now.
    pub fn install_patches(&mut self, generation: u64, patches: Vec<(NodeId, Option<Tree>)>) -> (installed:
        bool)
        requires
            old(self).generation < u64::MAX,
            old(self).result matches Some(result) ==> result.tree.cells().len() > 0 && splice_holds(
                result.tree,
                patches@,
            ),
        ensures
            installed == old(self).accepts(generation, patches@),
            !installed ==> *final(self) == *old(self),
            installed ==> spliced(*old(self), *final(self), patches@),
    {
        if patches.len() == 0 {
            return false;
        }
        if self.generation != generation {
            return false;
        }
        let mut held: Option<ScanResult> = None;
        core::mem::swap(&mut held, &mut self.result);
        match held {
            None => false,
            Some(current) => {
                let tree: Tree = replace_subtrees(&current.tree, patches);
                let stats: ScanStats = patched_stats(&current.stats, &tree);
                self.result = Some(
                    ScanResult {
                        root: current.root,
                        started_at: current.started_at,
                        duration_ms: current.duration_ms,
                        stats,
                        cancelled: current.cancelled,
                        tree,
                    },
                );
                self.generation = self.generation + 1;
                true
            },
        }
    }

    /// Splices what rescanning the paths of a finished batch gave into the tree: one answer
    /// for each node of [`ScanManager::patch_targets`], `None` where it could not be looked
    /// at. Paths the tree does not know are no patch at all: there is no row on screen for
    /// what the batch deleted, so there is nothing to warn about.
    pub fn patch_paths(&mut self, paths: &Vec<String>, answers: Vec<Option<Option<Tree>>>) -> (state:
        TreeState)
        requires
            old(self).generation < u64::MAX,
            old(self).result matches Some(result) ==> result.tree.cells().len() > 0 && forall|
                ids: Seq<NodeId>,
            |
                #[trigger] targets_exactly(ids, result.tree.cells(), texts(paths@)) ==> ids.len()
                    == answers@.len() && splice_holds(
                    result.tree,
                    patches_from(ids, answers@, ids.len()),
                ),
        ensures
            match old(self).result {
                None => state == TreeState::Current && *final(self) == *old(self),
                Some(result) => exists|ids: Seq<NodeId>|
                    {
                        let patches = patches_from(ids, answers@, ids.len());
                        &&& #[trigger] targets_exactly(ids, result.tree.cells(), texts(paths@))
                        &&& if patches.len() == 0 {
                            *final(self) == *old(self)
                        } else {
                            spliced(*old(self), *final(self), patches)
                        }
                        &&& state == if ids.len() == 0 || (patches.len() > 0 && complete_answers(
                            answers@,
                        )) {
                            TreeState::Current
                        } else {
                            TreeState::Stale
                        }
                    },
            },
    {
        let targets: PatchTargets = match self.patch_targets(paths) {
            Some(targets) => targets,
            None => {
                proof {
                    if self.result is Some {
                        let none = Seq::<NodeId>::empty();
                        let cells = self.result->0.tree.cells();
                        assert(targets_exactly(none, cells, texts(paths@)));
                    }
                }
                return TreeState::Current;
            },
        };
        let ghost ids = targets.ids@;
        let ghost cells = self.result->0.tree.cells();
        assert(targets_exactly(ids, cells, texts(paths@)));
        let (patches, complete): (Vec<(NodeId, Option<Tree>)>, bool) = rescan_targets(
            &targets.ids,
            answers,
        );
        let installed: bool = self.install_patches(targets.generation, patches);
        TreeState::of(installed, complete)
    }
}

/// The options every scan of this app runs with, and every rescan that patches one.
///
/// One function for both, because a rescan that did not keep the rules of the scan it
/// patches would splice in a branch the scan itself would never have produced.
pub fn scan_options(root: String) -> (options: ScanOptions)
    ensures
        options.root == root,
        options.excludes@.len() == 0,
        options.same_device,
{
    ScanOptions::new(root)
}

/// What a panic says, where it says anything.
pub open spec fn panic_text_of(said: Option<Seq<char>>) -> Seq<char> {
    match said {
        Some(text) => text,
        None => "unknown panic"@,
    }
}

/// What a panic says, for a caller that has its own sentence to put it in: `said` is the text
/// it carries, if it carries one.
pub fn panic_text(said: Option<&str>) -> (text: String)
    ensures
        text@ == panic_text_of(crate::paths::opt_str(said)),
{
    match said {
        Some(text) => text.to_owned(),
        None => "unknown panic".to_owned(),
    }
}

/// What is said of a scan that panicked.
pub fn panic_message(said: Option<&str>) -> (text: String)
    ensures
        text@ == "the scan panicked: "@ + panic_text_of(crate::paths::opt_str(said)),
{
    let mut text: String = "the scan panicked: ".to_owned();
    text.append(&panic_text(said));
    text
}

} // verus!
