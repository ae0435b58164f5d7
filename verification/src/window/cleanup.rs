//! Cleanup batches: where the modules the window holds, the cleanup engine, the record and
//! the Explorer's tree meet.
//!
//! A batch is always planned again from the requests. Nothing the screen sends is trusted
//! beyond the item ids, the actions, the options and the mode.

use super::actions::may_have_changed;
use super::module_manager::{held_items, involved, kept_items, started_of};
use super::module_manager::{ModuleManager, Slot, Status};
use super::scan_manager::TreeState;
use super::views::{CleanupPreviews, CleanupResult};
use crate::action::engine::EntryLook;
use crate::action::guards::Limits;
use crate::action::log::{detail_of, log_result_of, LogEntry};
use crate::action::model::{freed_by, EntryResult, Mode, Timestamp};
use crate::cleanup::engine::{looks_fit, planning_all, preview, previews, Held};
use crate::cleanup::model::{CleanupEntryOutcome, CleanupOutcome, Progress, Request};
use crate::cleanup::run::{execute, runs_fit, runs_through, StepRun};
use crate::module::{Descriptor, Module};
use crate::path::{components, extend, extended, file_name, file_name_of, join, joined, opens};
use crate::path::{parent, parent_text, parts, starts_with, within, Part};
use crate::paths::opt_str;
use crate::scan::tree::NodeKind;
use crate::text::{copy_all, opt_text, texts};
use vstd::prelude::*;

verus! {

pub const CLEANUP_PROGRESS_EVENT: &'static str = "cleanup:progress";

/// How many items the screen is handed when it asks for no number of its own.
pub const DEFAULT_ITEMS_LIMIT: usize = 2000;

/// The home folder, which the guards a module's deletions answer to are built from. Without
/// one there is no honest root to build them from, and no batch runs.
pub fn need_home(home: Option<&str>) -> (needed: Result<String, String>)
    ensures
        match (home, needed) {
            (Some(home), Ok(needed)) => needed@ == home@,
            (None, Err(message)) => message@ == "cannot determine the home folder"@,
            _ => false,
        },
{
    match home {
        Some(home) => Ok(home.to_owned()),
        None => Err("cannot determine the home folder".to_owned()),
    }
}

/// The items of the first `k` entries that were removed.
pub open spec fn removed_of(entries: Seq<CleanupEntryOutcome>, k: nat) -> Seq<Seq<char>>
    decreases k,
{
    if k == 0 {
        Seq::empty()
    } else {
        let before = removed_of(entries, (k - 1) as nat);
        if entries[k - 1].result@ is Removed {
            before.push(entries[k - 1].item@)
        } else {
            before
        }
    }
}

/// The items a batch removed: what goes off the screen at once.
pub fn removed_items(outcome: &CleanupOutcome) -> (items: Vec<String>)
    ensures
        texts(items@) == removed_of(outcome.entries@, outcome.entries@.len()),
{
    let mut items: Vec<String> = Vec::new();
    let mut i: usize = 0;
    assert(texts(items@) =~= Seq::empty());
    while i < outcome.entries.len()
        invariant
            i <= outcome.entries.len(),
            texts(items@) == removed_of(outcome.entries@, i as nat),
        decreases outcome.entries.len() - i,
    {
        let ghost before = items@;
        let removed: bool = match &outcome.entries[i].result {
            EntryResult::Removed { bytes: _ } => true,
            _ => false,
        };
        if removed {
            let item: String = outcome.entries[i].item.clone();
            items.push(item);
            assert(texts(items@) =~= texts(before).push(item@));
        }
        i += 1;
    }
    items
}

/// The items a batch was asked for: whose modules are discovered again.
pub fn asked_items(requests: &Vec<Request>) -> (items: Vec<String>)
    ensures
        texts(items@) == requests@.map_values(|request: Request| request.item@),
{
    let mut items: Vec<String> = Vec::new();
    let mut i: usize = 0;
    while i < requests.len()
        invariant
            i <= requests.len(),
            items@.len() == i,
            forall|k: int| 0 <= k < i ==> (#[trigger] items@[k])@ == requests@[k].item@,
        decreases requests.len() - i,
    {
        items.push(requests[i].item.clone());
        i += 1;
    }
    assert(texts(items@) =~= requests@.map_values(|request: Request| request.item@));
    items
}

/// The targets of the first `k` entries whose branch on disk may have changed.
pub open spec fn changed_targets_of(entries: Seq<CleanupEntryOutcome>, k: nat) -> Seq<Seq<char>>
    decreases k,
{
    if k == 0 {
        Seq::empty()
    } else {
        let before = changed_targets_of(entries, (k - 1) as nat);
        if may_have_changed(entries[k - 1].result@) {
            before + texts(entries[k - 1].targets@)
        } else {
            before
        }
    }
}

/// The targets of every entry that was removed or failed: a failure may have deleted part of
/// what it was about.
pub fn changed_targets(outcome: &CleanupOutcome) -> (targets: Vec<String>)
    ensures
        texts(targets@) == changed_targets_of(outcome.entries@, outcome.entries@.len()),
{
    let mut targets: Vec<String> = Vec::new();
    let mut i: usize = 0;
    assert(texts(targets@) =~= Seq::empty());
    while i < outcome.entries.len()
        invariant
            i <= outcome.entries.len(),
            texts(targets@) == changed_targets_of(outcome.entries@, i as nat),
        decreases outcome.entries.len() - i,
    {
        let ghost before = targets@;
        let moved: bool = match &outcome.entries[i].result {
            EntryResult::Removed { bytes: _ } => true,
            EntryResult::Failed { message: _ } => true,
            EntryResult::Skipped { reason: _ } => false,
        };
        if moved {
            let mut more: Vec<String> = copy_all(&outcome.entries[i].targets);
            let ghost added = more@;
            targets.append(&mut more);
            assert(texts(targets@) =~= texts(before) + texts(added));
        }
        i += 1;
    }
    targets
}

/// `target` as the scan spelled it: as it is where it lies under the root as scanned, with
/// the resolved root's prefix swapped for the root as scanned where its parent resolves into
/// that, and nothing otherwise.
pub open spec fn spelling_of(
    target: Seq<char>,
    root: Seq<char>,
    resolved_root: Seq<char>,
    resolved_parent: Option<Seq<char>>,
) -> Option<Seq<char>> {
    if within(target, root) {
        Some(target)
    } else {
        match (parent_text(target), file_name_of(target), resolved_parent) {
            (Some(_), Some(name), Some(above)) => {
                let resolved = joined(above, name);
                if within(resolved, resolved_root) {
                    Some(extended(root, parts(resolved).skip(parts(resolved_root).len() as int)))
                } else {
                    None
                }
            },
            _ => None,
        }
    }
}

/// `target` as the scan spelled it, or `None` when it is not under the scan's root.
/// `resolved_parent` is where the folder it is in leads, if it leads anywhere.
///
/// A module does not spell paths the way the scan does, `git` answers `/private/tmp` for a
/// root scanned as `/tmp`, and the engine's targets are normalized besides. The remainder
/// carries the names the disk has, which are the names the walk read: a path the tree still
/// does not know is one the scan never saw, and there is no row to patch.
pub fn scan_spelling(
    target: &str,
    root: &str,
    resolved_root: &str,
    resolved_parent: Option<&str>,
) -> (spelled: Option<String>)
    ensures
        opt_text(spelled) == spelling_of(
            target@,
            root@,
            resolved_root@,
            opt_str(resolved_parent),
        ),
{
    if starts_with(target, root) {
        return Some(target.to_owned());
    }
    if parent(target).is_none() {
        return None;
    }
    match (file_name(target), resolved_parent) {
        (Some(name), Some(above)) => {
            let resolved: Vec<Part> = components(&join(above, &name));
            let base: Vec<Part> = components(resolved_root);
            if opens(&base, &resolved) {
                Some(extend(root, &resolved, base.len()))
            } else {
                None
            }
        },
        _ => None,
    }
}

/// The spellings of the first `k` targets that have one.
pub open spec fn spellings_of(
    targets: Seq<Seq<char>>,
    root: Seq<char>,
    resolved_root: Seq<char>,
    parents: Seq<Option<String>>,
    k: nat,
) -> Seq<Seq<char>>
    decreases k,
{
    if k == 0 {
        Seq::empty()
    } else {
        let before = spellings_of(targets, root, resolved_root, parents, (k - 1) as nat);
        match spelling_of(targets[k - 1], root, resolved_root, opt_text(parents[k - 1])) {
            Some(path) => before.push(path),
            None => before,
        }
    }
}

/// What of a batch is patched into the tree, in the spelling the scan recorded, which is the
/// only one the tree can find. `parents` says where the folder of each target leads.
pub fn tree_paths(
    root: &str,
    resolved_root: &str,
    targets: &Vec<String>,
    parents: &Vec<Option<String>>,
) -> (paths: Vec<String>)
    requires
        targets@.len() == parents@.len(),
    ensures
        texts(paths@) == spellings_of(
            texts(targets@),
            root@,
            resolved_root@,
            parents@,
            targets@.len(),
        ),
{
    let mut paths: Vec<String> = Vec::new();
    let mut i: usize = 0;
    assert(texts(paths@) =~= Seq::empty());
    while i < targets.len()
        invariant
            i <= targets.len(),
            targets@.len() == parents@.len(),
            texts(paths@) == spellings_of(
                texts(targets@),
                root@,
                resolved_root@,
                parents@,
                i as nat,
            ),
        decreases targets.len() - i,
    {
        let ghost before = paths@;
        let above: Option<&str> = match &parents[i] {
            Some(above) => Some(above.as_str()),
            None => None,
        };
        if let Some(path) = scan_spelling(&targets[i], root, resolved_root, above) {
            paths.push(path);
            assert(texts(paths@) =~= texts(before).push(path@));
        }
        i += 1;
    }
    paths
}

/// What a batch would do in each mode, with nothing touched.
pub fn preview_cleanup<M: Module>(
    requests: &Vec<Request>,
    held: &Held<M>,
    limits: &Limits,
    trash_looks: &Vec<Vec<EntryLook>>,
    permanent_looks: &Vec<Vec<EntryLook>>,
) -> (shown: CleanupPreviews)
    requires
        looks_fit(requests@, held.all(), trash_looks@, Mode::Trash),
        looks_fit(requests@, held.all(), permanent_looks@, Mode::Permanent),
    ensures
        previews(
            shown.trash,
            planning_all(requests@, held.all(), limits@, trash_looks@, Mode::Trash),
            Mode::Trash,
        ),
        previews(
            shown.permanent,
            planning_all(requests@, held.all(), limits@, permanent_looks@, Mode::Permanent),
            Mode::Permanent,
        ),
{
    CleanupPreviews {
        trash: preview(requests, held, limits, trash_looks, Mode::Trash),
        permanent: preview(requests, held, limits, permanent_looks, Mode::Permanent),
    }
}

/// What is left to do once a batch is over: the targets to rescan, and the discoveries that
/// have started.
#[derive(Debug)]
pub struct Aftermath {
    pub targets: Vec<String>,
    pub started: Vec<(usize, u64)>,
}

/// Whether a batch that removed the items `removed` makes `after` of the slot `before`, its
/// module being discovered `again` or not.
pub open spec fn settled(
    before: Slot,
    after: Slot,
    removed: Seq<Seq<char>>,
    again: bool,
) -> bool {
    &&& after.generation == before.generation + if again {
        1int
    } else {
        0int
    }
    &&& after.status == if again {
        Status::Discovering
    } else {
        before.status
    }
    &&& after.discovered_at == before.discovered_at
    &&& after.items is Some == before.items is Some
    &&& held_items(after) == kept_items(held_items(before), removed, held_items(before).len())
}

/// The items a batch was asked for.
pub open spec fn asked_of(requests: Seq<Request>) -> Seq<Seq<char>> {
    requests.map_values(|request: Request| request.item@)
}

/// The modules a batch was about.
pub open spec fn involved_in(registry: Seq<Descriptor>, requests: Seq<Request>) -> Seq<Seq<char>> {
    involved(registry, asked_of(requests), registry.len())
}

/// Whether settling a batch that came to `outcome` makes `after` of the modules `before` and
/// leaves `rest` to do.
pub open spec fn settles(
    before: ModuleManager,
    after: ModuleManager,
    requests: Seq<Request>,
    outcome: CleanupOutcome,
    rest: Aftermath,
) -> bool {
    let about = involved_in(before.registry@, requests);
    &&& after.wf()
    &&& after.registry == before.registry
    &&& after.home == before.home
    &&& forall|i: int|
        0 <= i < after.slots@.len() ==> settled(
            before.slots@[i],
            #[trigger] after.slots@[i],
            removed_of(outcome.entries@, outcome.entries@.len()),
            about.contains(after.registry@[i].id@),
        )
    &&& rest.started@ == if about.len() == 0 {
        Seq::empty()
    } else {
        started_of(before.registry@, before.slots@, about, before.registry@.len())
    }
    &&& texts(rest.targets@) == changed_targets_of(outcome.entries@, outcome.entries@.len())
}

/// Settles a batch that has run: what it removed is off the screen at once, before the
/// rediscovery has anything to say, and the modules it was about are discovered again.
pub fn settle(modules: &mut ModuleManager, requests: &Vec<Request>, outcome: &CleanupOutcome) -> (rest:
    Aftermath)
    requires
        old(modules).wf(),
        forall|i: int|
            0 <= i < old(modules).slots@.len() ==> (#[trigger] old(modules).slots@[i]).generation
                < u64::MAX,
    ensures
        settles(*old(modules), *final(modules), requests@, *outcome, rest),
{
    let ghost before = modules.slots@;
    let ghost about = involved_in(modules.registry@, requests@);
    modules.forget(&removed_items(outcome));
    let ghost between = modules.slots@;
    assert forall|i: int| 0 <= i < between.len() implies (#[trigger] between[i]).generation
        < u64::MAX by {
        assert(between[i].generation == before[i].generation);
    }
    let again: Vec<String> = modules.modules_of(&asked_items(requests));
    assert(texts(again@) == about);
    assert(again@.len() == about.len());
    let mut started: Vec<(usize, u64)> = Vec::new();
    if again.len() > 0 {
        started = modules.refresh(&again);
        proof {
            same_start(modules.registry@, before, between, about, modules.registry@.len());
        }
    }
    let ghost after = modules.slots@;
    assert forall|i: int| 0 <= i < after.len() implies settled(
        before[i],
        #[trigger] after[i],
        removed_of(outcome.entries@, outcome.entries@.len()),
        about.contains(modules.registry@[i].id@),
    ) by {
        assert(between[i].generation == before[i].generation);
        if about.len() == 0 {
            assert(after[i] == between[i]);
        }
    }
    Aftermath { targets: changed_targets(outcome), started }
}

/// Whether `line` is the line for one entry of a cleanup that began at `at`: under its path, or
/// its title where it has none, and in the mode the entry went in, which need not be that of
/// the batch.
pub open spec fn records_cleanup(line: LogEntry, entry: CleanupEntryOutcome, at: Timestamp) -> bool {
    &&& line.at == at
    &&& line.path@ == match entry.path {
        Some(path) => path@,
        None => entry.title@,
    }
    &&& line.kind == match entry.kind {
        Some(kind) => kind,
        None => NodeKind::Other,
    }
    &&& line.mode == entry.mode
    &&& line.result == log_result_of(entry.result@)
    &&& opt_text(line.detail) == detail_of(entry.result@)
    &&& line.bytes == freed_by(entry.result@)
}

/// The lines a cleanup is recorded as: one per entry, in their order.
pub fn cleanup_lines(outcome: &CleanupOutcome) -> (lines: Vec<LogEntry>)
    ensures
        lines@.len() == outcome.entries@.len(),
        forall|i: int|
            0 <= i < lines@.len() ==> records_cleanup(
                #[trigger] lines@[i],
                outcome.entries@[i],
                outcome.at,
            ),
{
    let mut lines: Vec<LogEntry> = Vec::new();
    let mut i: usize = 0;
    while i < outcome.entries.len()
        invariant
            i <= outcome.entries.len(),
            lines@.len() == i,
            forall|k: int|
                0 <= k < i ==> records_cleanup(
                    #[trigger] lines@[k],
                    outcome.entries@[k],
                    outcome.at,
                ),
        decreases outcome.entries.len() - i,
    {
        let entry: &CleanupEntryOutcome = &outcome.entries[i];
        let path: String = match &entry.path {
            Some(path) => path.clone(),
            None => entry.title.clone(),
        };
        let kind: NodeKind = match entry.kind {
            Some(kind) => kind,
            None => NodeKind::Other,
        };
        lines.push(LogEntry::saying(path, kind, &entry.result, outcome.at, entry.mode));
        i += 1;
    }
    lines
}

/// A batch that has run, and what it leaves to do.
#[derive(Debug)]
pub struct Cleaned {
    pub outcome: CleanupOutcome,
    pub reports: Vec<Progress>,
    /// What goes on record.
    pub lines: Vec<LogEntry>,
    pub rest: Aftermath,
}

/// Runs a batch, says what goes on record and settles it. Without limits there was no home folder to build them from,
/// and the batch does not run.
pub fn run_cleanup<M: Module>(
    modules: &mut ModuleManager,
    requests: &Vec<Request>,
    held: &Held<M>,
    limits: &Option<Limits>,
    looks: &Vec<Vec<EntryLook>>,
    runs: &Vec<Vec<StepRun>>,
    mode: Mode,
    at: Timestamp,
) -> (cleaned: Result<Cleaned, String>)
    requires
        old(modules).wf(),
        forall|i: int|
            0 <= i < old(modules).slots@.len() ==> (#[trigger] old(modules).slots@[i]).generation
                < u64::MAX,
        limits matches Some(limits) ==> {
            &&& looks_fit(requests@, held.all(), looks@, mode)
            &&& runs_fit(planning_all(requests@, held.all(), limits@, looks@, mode), runs@)
        },
    ensures
        match (*limits, cleaned) {
            (None, Err(message)) => {
                &&& message@ == "cannot determine the home folder"@
                &&& *final(modules) == *old(modules)
            },
            (Some(limits), Ok(cleaned)) => {
                &&& runs_through(
                    cleaned.outcome,
                    cleaned.reports@,
                    planning_all(requests@, held.all(), limits@, looks@, mode),
                    limits@,
                    runs@,
                    mode,
                    at,
                )
                &&& cleaned.lines@.len() == cleaned.outcome.entries@.len()
                &&& forall|i: int|
                    0 <= i < cleaned.lines@.len() ==> records_cleanup(
                        #[trigger] cleaned.lines@[i],
                        cleaned.outcome.entries@[i],
                        at,
                    )
                &&& settles(
                    *old(modules),
                    *final(modules),
                    requests@,
                    cleaned.outcome,
                    cleaned.rest,
                )
            },
            _ => false,
        },
{
    match limits {
        None => Err("cannot determine the home folder".to_owned()),
        Some(limits) => {
            let (outcome, reports) = execute(requests, held, limits, looks, runs, mode, at);
            let lines: Vec<LogEntry> = cleanup_lines(&outcome);
            let rest: Aftermath = settle(modules, requests, &outcome);
            Ok(Cleaned { outcome, reports, lines, rest })
        },
    }
}

/// What the window tells of a batch: the tree on the screen is stale unless the patch of it
/// ended current. `patched` is `None` where the patch did not end at all.
pub fn cleanup_result(outcome: CleanupOutcome, recorded: bool, patched: Option<TreeState>) -> (told:
    CleanupResult)
    ensures
        told.outcome == outcome,
        told.recorded == recorded,
        told.tree_stale == (patched != Some(TreeState::Current)),
{
    let current: bool = match patched {
        Some(TreeState::Current) => true,
        _ => false,
    };
    CleanupResult { outcome, recorded, tree_stale: !current }
}

/// What a refresh starts rests on the generations alone.
proof fn same_start(
    registry: Seq<Descriptor>,
    a: Seq<Slot>,
    b: Seq<Slot>,
    ids: Seq<Seq<char>>,
    k: nat,
)
    requires
        k <= a.len() == b.len(),
        forall|i: int| 0 <= i < a.len() ==> (#[trigger] a[i]).generation == b[i].generation,
    ensures
        started_of(registry, a, ids, k) == started_of(registry, b, ids, k),
    decreases k,
{
    if k > 0 {
        same_start(registry, a, b, ids, (k - 1) as nat);
        assert(a[k - 1].generation == b[k - 1].generation);
    }
}

} // verus!
