//! Deletion batches: where the scan the window holds, the action engine and the record of
//! what was deleted meet.
//!
//! A batch is always planned from the paths alone. Nothing the screen sends is trusted
//! beyond the paths and the mode: not a preview it was shown, and not the sizes in it.

use super::scan_manager::ScanManager;
use crate::action::engine::{carries_out, execute, preview, previews, EntryLook, EntryRun};
use crate::action::guards::{look_absolute, Limits, LimitsSpec};
use crate::action::log::{lines_for, LogEntry};
use crate::action::model::{BlockReason, EntryOutcome, EntryResult, EntryResultSpec, EntryStatus};
use crate::action::model::{Mode, Outcome, Plan, PlanEntry, Preview, PreviewEntry, Timestamp};
use crate::scan::tree::{found_at, Cell, NodeKind, Tree};
use crate::scan::walker::ScanResult;
use crate::text::texts;
use vstd::prelude::*;

verus! {

/// What the tree says about a path: its kind and its size.
pub open spec fn known_as(cells: Seq<Cell>, path: Seq<char>) -> Option<(NodeKind, u64)> {
    match found_at(cells, path) {
        Some(id) => if id < cells.len() {
            Some((cells[id as int].kind, cells[id as int].size))
        } else {
            None
        },
        None => None,
    }
}

/// What a path is taken for: what the tree says, and nothing in particular where it says
/// nothing or there is no tree.
pub open spec fn taken_for(result: Option<ScanResult>, path: Seq<char>) -> (NodeKind, u64) {
    let known = match result {
        Some(result) => known_as(result.tree.cells(), path),
        None => None,
    };
    match known {
        Some(found) => found,
        None => (NodeKind::Other, 0),
    }
}

/// Whether `plan` is the batch over `paths`.
pub open spec fn plans(
    plan: Plan,
    result: Option<ScanResult>,
    paths: Seq<Seq<char>>,
    mode: Mode,
) -> bool {
    &&& plan.mode == mode
    &&& plan.entries@.len() == paths.len()
    &&& forall|i: int|
        0 <= i < paths.len() ==> {
            let entry = #[trigger] plan.entries@[i];
            &&& entry.path@ == paths[i]
            &&& entry.kind == taken_for(result, paths[i]).0
            &&& entry.size == taken_for(result, paths[i]).1
        }
}

fn look_up(tree: &Tree, path: &str) -> (known: Option<(NodeKind, u64)>)
    ensures
        known == known_as(tree.cells(), path@),
{
    match tree.find(path) {
        None => None,
        Some(id) => match tree.get(id) {
            Some(node) => Some((node.kind, node.size)),
            None => None,
        },
    }
}

/// The batch as the engine takes it.
///
/// The kind and the size come from the tree, the size especially, because it is the number
/// the Explorer showed the user and the one the dialog is about. A path the tree does not
/// know carries neither: the guards still judge it, and its kind is read from the disk
/// before anything is touched.
pub fn plan_for(manager: &ScanManager, paths: &Vec<String>, mode: Mode) -> (plan: Plan)
    ensures
        plans(plan, manager.result, texts(paths@), mode),
{
    let mut entries: Vec<PlanEntry> = Vec::new();
    let mut i: usize = 0;
    while i < paths.len()
        invariant
            i <= paths.len(),
            entries@.len() == i,
            forall|k: int|
                0 <= k < i ==> {
                    let entry = #[trigger] entries@[k];
                    &&& entry.path@ == paths@[k]@
                    &&& entry.kind == taken_for(manager.result, paths@[k]@).0
                    &&& entry.size == taken_for(manager.result, paths@[k]@).1
                },
        decreases paths.len() - i,
    {
        let known: Option<(NodeKind, u64)> = match &manager.result {
            Some(result) => look_up(&result.tree, &paths[i]),
            None => None,
        };
        let (kind, size): (NodeKind, u64) = match known {
            Some(found) => found,
            None => (NodeKind::Other, 0),
        };
        entries.push(PlanEntry { path: paths[i].clone(), kind, size });
        i += 1;
    }
    Plan { entries, mode }
}

/// Whether `shown` refuses every entry of a plan because there is no scan root.
pub open spec fn refuses_all(shown: Preview, plan: Plan) -> bool {
    &&& shown.mode == plan.mode
    &&& shown.total_bytes == 0
    &&& shown.entries@.len() == plan.entries@.len()
    &&& forall|i: int|
        0 <= i < shown.entries@.len() ==> {
            let entry = #[trigger] shown.entries@[i];
            &&& entry.path@ == plan.entries@[i].path@
            &&& entry.kind == plan.entries@[i].kind
            &&& entry.size == plan.entries@[i].size
            &&& entry.status == EntryStatus::Blocked(BlockReason::OutsideRoots)
        }
}

/// A batch with no scan root behind it: nothing is inside a root that does not exist, and the
/// honest verdict for every entry is the one the guards would give.
pub fn refused_preview(plan: &Plan) -> (shown: Preview)
    ensures
        refuses_all(shown, *plan),
{
    let mut entries: Vec<PreviewEntry> = Vec::new();
    let mut i: usize = 0;
    while i < plan.entries.len()
        invariant
            i <= plan.entries.len(),
            entries@.len() == i,
            forall|k: int|
                0 <= k < i ==> {
                    let entry = #[trigger] entries@[k];
                    &&& entry.path@ == plan.entries@[k].path@
                    &&& entry.kind == plan.entries@[k].kind
                    &&& entry.size == plan.entries@[k].size
                    &&& entry.status == EntryStatus::Blocked(BlockReason::OutsideRoots)
                },
        decreases plan.entries.len() - i,
    {
        let entry: &PlanEntry = &plan.entries[i];
        entries.push(
            PreviewEntry {
                path: entry.path.clone(),
                kind: entry.kind,
                size: entry.size,
                status: EntryStatus::Blocked(BlockReason::OutsideRoots),
            },
        );
        i += 1;
    }
    Preview { entries, total_bytes: 0, mode: plan.mode }
}

/// Whether `outcome` is `plan` with every entry left where it is.
pub open spec fn skips_all(outcome: Outcome, plan: Plan, at: Timestamp) -> bool {
    &&& outcome.at == at
    &&& outcome.mode == plan.mode
    &&& outcome.freed_bytes == 0
    &&& outcome.entries@.len() == plan.entries@.len()
    &&& forall|i: int|
        0 <= i < outcome.entries@.len() ==> {
            let entry = #[trigger] outcome.entries@[i];
            &&& entry.path@ == plan.entries@[i].path@
            &&& entry.kind == plan.entries@[i].kind
            &&& entry.result@ == EntryResultSpec::Skipped(BlockReason::OutsideRoots)
        }
}

/// The same refusal, one stage on. It reaches the log like any other batch: the record is of
/// what the app was asked to delete.
pub fn refused_outcome(plan: &Plan, at: Timestamp) -> (outcome: Outcome)
    ensures
        skips_all(outcome, *plan, at),
{
    let mut entries: Vec<EntryOutcome> = Vec::new();
    let mut i: usize = 0;
    while i < plan.entries.len()
        invariant
            i <= plan.entries.len(),
            entries@.len() == i,
            forall|k: int|
                0 <= k < i ==> {
                    let entry = #[trigger] entries@[k];
                    &&& entry.path@ == plan.entries@[k].path@
                    &&& entry.kind == plan.entries@[k].kind
                    &&& entry.result@ == EntryResultSpec::Skipped(BlockReason::OutsideRoots)
                },
        decreases plan.entries.len() - i,
    {
        let entry: &PlanEntry = &plan.entries[i];
        entries.push(
            EntryOutcome {
                path: entry.path.clone(),
                kind: entry.kind,
                result: EntryResult::Skipped { reason: BlockReason::OutsideRoots },
            },
        );
        i += 1;
    }
    Outcome { entries, freed_bytes: 0, at, mode: plan.mode }
}

/// What a batch would do, with nothing touched: every path against the guards and the disk.
/// Without limits, which there are none of when nothing has been scanned, everything is
/// refused.
pub fn preview_batch(
    manager: &ScanManager,
    limits: &Option<Limits>,
    paths: &Vec<String>,
    looks: &Vec<EntryLook>,
    mode: Mode,
) -> (shown: Preview)
    requires
        limits is Some ==> looks@.len() == paths@.len() && forall|i: int|
            0 <= i < looks@.len() ==> look_absolute((#[trigger] looks@[i]).look@),
    ensures
        exists|plan: Plan| #[trigger]
            plans(plan, manager.result, texts(paths@), mode) && match *limits {
                Some(limits) => previews(shown, plan, limits@, looks@),
                None => refuses_all(shown, plan),
            },
{
    let plan: Plan = plan_for(manager, paths, mode);
    match limits {
        Some(limits) => preview(&plan, limits, looks),
        None => refused_preview(&plan),
    }
}

/// Whether the branch of an entry on disk may have changed: it was removed, or it failed,
/// which may have left most of it deleted.
pub open spec fn may_have_changed(result: EntryResultSpec) -> bool {
    result is Removed || result is Failed
}

/// The paths whose branch on disk may have changed, of the first `k`.
pub open spec fn touched_of(
    paths: Seq<Seq<char>>,
    entries: Seq<EntryOutcome>,
    k: nat,
) -> Seq<Seq<char>>
    decreases k,
{
    if k == 0 {
        Seq::empty()
    } else {
        let before = touched_of(paths, entries, (k - 1) as nat);
        if may_have_changed(entries[k - 1].result@) {
            before.push(paths[k - 1])
        } else {
            before
        }
    }
}

/// The paths of the batch whose branch on disk may have changed, in the spelling the caller
/// handed in, never the normalized one the outcome carries.
pub fn touched(paths: &Vec<String>, outcome: &Outcome) -> (changed: Vec<String>)
    requires
        paths@.len() == outcome.entries@.len(),
    ensures
        texts(changed@) == touched_of(texts(paths@), outcome.entries@, paths@.len()),
{
    let mut changed: Vec<String> = Vec::new();
    let mut i: usize = 0;
    assert(texts(changed@) =~= Seq::empty());
    while i < paths.len()
        invariant
            i <= paths.len(),
            paths@.len() == outcome.entries@.len(),
            texts(changed@) == touched_of(texts(paths@), outcome.entries@, i as nat),
        decreases paths.len() - i,
    {
        let ghost before = changed@;
        let moved: bool = match &outcome.entries[i].result {
            EntryResult::Removed { bytes: _ } => true,
            EntryResult::Failed { message: _ } => true,
            EntryResult::Skipped { reason: _ } => false,
        };
        if moved {
            let path: String = paths[i].clone();
            changed.push(path);
            assert(texts(changed@) =~= texts(before).push(path@));
        }
        i += 1;
    }
    changed
}

/// What a batch leaves behind: what became of it, the lines of its record, and the paths
/// that are to be rescanned.
#[derive(Debug)]
pub struct Batch {
    pub outcome: Outcome,
    pub lines: Vec<LogEntry>,
    pub changed: Vec<String>,
}

/// Whether `outcome` is what a plan came to: checked against what was seen of it, and run on
/// what was seen then.
pub open spec fn runs_to(
    outcome: Outcome,
    plan: Plan,
    limits: LimitsSpec,
    looks: Seq<EntryLook>,
    runs: Seq<EntryRun>,
    at: Timestamp,
) -> bool {
    exists|shown: Preview| #[trigger]
        previews(shown, plan, limits, looks) && carries_out(outcome, shown, limits, runs, at)
}

/// Deletes what the guards allow, over what was seen of every path before the batch
/// (`looks`) and what happened when the turn of each entry came (`runs`). Without limits,
/// which there are none of when nothing has been scanned, everything is refused.
///
/// Every entry that was removed or failed is rescanned, not just the removed ones: deleting
/// is not atomic, so a failure can leave most of a tree deleted.
pub fn run_batch(
    manager: &ScanManager,
    limits: &Option<Limits>,
    paths: &Vec<String>,
    looks: &Vec<EntryLook>,
    runs: &Vec<EntryRun>,
    mode: Mode,
    at: Timestamp,
) -> (batch: Batch)
    requires
        limits is Some ==> looks@.len() == paths@.len() && runs@.len() == paths@.len() && forall|
            i: int,
        |
            0 <= i < looks@.len() ==> look_absolute((#[trigger] looks@[i]).look@),
    ensures
        exists|plan: Plan| #[trigger]
            plans(plan, manager.result, texts(paths@), mode) && match *limits {
                Some(limits) => runs_to(batch.outcome, plan, limits@, looks@, runs@, at),
                None => skips_all(batch.outcome, plan, at),
            },
        batch.lines@.len() == batch.outcome.entries@.len(),
        forall|i: int|
            0 <= i < batch.lines@.len() ==> (#[trigger] batch.lines@[i]).records(
                batch.outcome.entries@[i],
                at,
                mode,
            ),
        batch.outcome.entries@.len() == paths@.len(),
        texts(batch.changed@) == touched_of(
            texts(paths@),
            batch.outcome.entries@,
            paths@.len(),
        ),
{
    let plan: Plan = plan_for(manager, paths, mode);
    assert(plans(plan, manager.result, texts(paths@), mode));
    let outcome: Outcome = match limits {
        Some(limits) => {
            let shown: Preview = preview(&plan, limits, looks);
            let outcome: Outcome = execute(&shown, limits, runs, at);
            assert(runs_to(outcome, plan, limits@, looks@, runs@, at));
            outcome
        },
        None => refused_outcome(&plan, at),
    };
    let lines: Vec<LogEntry> = lines_for(&outcome);
    let changed: Vec<String> = touched(paths, &outcome);
    Batch { outcome, lines, changed }
}

} // verus!
