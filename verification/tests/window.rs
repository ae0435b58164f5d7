use std::any::Any;

use storage_monitor::action::engine::{
    tally, EntryLook, EntryRun, SystemError, SystemErrorKind,
};
use storage_monitor::action::guards::{Limits, Look, Place, Seen};
use storage_monitor::action::log::{tail, LogResult};
use storage_monitor::action::model::{
    BlockReason, EntryOutcome, EntryResult, EntryStatus, Mode, Timestamp,
};
use storage_monitor::cleanup::engine::{targets, Held};
use storage_monitor::cleanup::model::{CleanupEntryOutcome, CleanupOutcome, Request, StepView};
use storage_monitor::cleanup::run::StepRun;
use storage_monitor::module::item::{Item, Level, Reason, Size, Verdict};
use storage_monitor::module::{
    ActionSpec, Command, Descriptor, Effect, ModuleError, Output, PlanLine, Plans, Step, Target,
};
use storage_monitor::scan::progress::ScanProgress;
use storage_monitor::scan::walk::{scan, Listing};
use storage_monitor::scan::walker::{Entry, Facts};
use storage_monitor::scan::{
    Node, NodeId, NodeKind, ProgressSnapshot, ScanResult, ScanStats, Subtree, Tree,
};
use storage_monitor::snapshot::model::{Snapshot, SnapshotEntry, SNAPSHOT_FORMAT};
use storage_monitor::window::actions::{
    plan_for, preview_batch, refused_outcome, refused_preview, run_batch, touched,
};
use storage_monitor::window::cleanup::{
    asked_items, changed_targets, cleanup_lines, cleanup_result, need_home, preview_cleanup, removed_items,
    run_cleanup, scan_spelling, settle, tree_paths, Cleaned,
};
use storage_monitor::window::commands::{
    batch_error, default_root, scan_root, top_growers, tree_node, usage_error, usage_path,
};
use storage_monitor::window::module_manager::{panicked, Found, ModuleManager};
use storage_monitor::window::scan_manager::{
    find_targets, panic_message, patched_stats, rescan_targets, scan_options, splice_fits,
    Finished, ScanManager, TreeState,
};
use storage_monitor::window::views::{CleanupResult, ModuleStatus, ModuleView, ScanState};

fn at(secs: i64) -> Timestamp {
    Timestamp { secs, nanos: 0 }
}

fn strings(list: &[&str]) -> Vec<String> {
    list.iter().map(|text| (*text).to_owned()).collect()
}

fn file(name: &str, size: u64) -> Subtree {
    Subtree::new(Node::new(name, NodeKind::File, size, size, 1, 0))
}

fn dir(name: &str, children: Vec<Subtree>) -> Subtree {
    let size = children.iter().map(|child| child.node.size).sum();
    let files = children.iter().map(|child| child.node.file_count).sum();
    Subtree::with_children(Node::new(name, NodeKind::Dir, size, size, files, 0), children)
}

/// ```text
/// /root
///   a/          40
///     one.bin   30
///     two.bin   10
///   b.bin        5
/// ```
fn result() -> ScanResult {
    let a = dir("a", vec![file("one.bin", 30), file("two.bin", 10)]);
    result_of(dir("/root", vec![a, file("b.bin", 5)]))
}

fn result_of(tree: Subtree) -> ScanResult {
    let tree = tree.flatten().0;
    let none = ScanStats { files: 0, dirs: 0, bytes: 0, errors: 0, hardlinks_skipped: 0 };
    ScanResult {
        root: tree.path(Tree::ROOT),
        started_at: at(1_700_000_000),
        duration_ms: 7,
        stats: patched_stats(&none, &tree),
        cancelled: false,
        tree,
    }
}

fn nothing_yet() -> ProgressSnapshot {
    ProgressSnapshot {
        files: 0,
        dirs: 0,
        bytes: 0,
        errors: 0,
        current_path: String::new(),
        cancelled: false,
    }
}

/// A window that has scanned the fixture.
fn scanned() -> ScanManager {
    let mut manager = ScanManager::new();
    manager.start("/root".to_owned()).unwrap();
    manager.complete(Finished::persist(result(), None).0);
    manager
}

fn children(manager: &ScanManager) -> Vec<String> {
    let (result, _) = manager.with_result().unwrap();
    let tree = &result.tree;
    tree.children(Tree::ROOT).map(|id| tree.get(id).unwrap().name.to_string()).collect()
}

#[test]
fn only_an_installed_and_complete_patch_leaves_the_tree_current() {
    assert_eq!(TreeState::of(true, true), TreeState::Current);
    assert_eq!(TreeState::of(false, true), TreeState::Stale, "the splice was dropped");
    assert_eq!(
        TreeState::of(true, false),
        TreeState::Stale,
        "a path could not be rescanned"
    );
    assert_eq!(TreeState::of(false, false), TreeState::Stale);
}

/// What a payload says, where it says anything.
fn said(payload: &(dyn Any + Send)) -> Option<&str> {
    match payload.downcast_ref::<&str>() {
        Some(text) => Some(text),
        None => payload.downcast_ref::<String>().map(String::as_str),
    }
}

#[test]
fn panic_messages_are_extracted_from_the_payload() {
    let text: Box<dyn Any + Send> = Box::new("boom");
    assert_eq!(panic_message(said(&*text)), "the scan panicked: boom");
    let string: Box<dyn Any + Send> = Box::new(String::from("bang"));
    assert_eq!(panic_message(said(&*string)), "the scan panicked: bang");
    let other: Box<dyn Any + Send> = Box::new(42u8);
    assert_eq!(panic_message(said(&*other)), "the scan panicked: unknown panic");
}

#[test]
fn a_scan_runs_on_a_thread_saves_a_snapshot_and_emits_done() {
    let mut manager = ScanManager::new();
    assert_eq!(manager.status(&nothing_yet(), 0).state, ScanState::Idle);
    assert!(manager.status(&nothing_yet(), 0).root.is_none());

    let (generation, replaced) = manager.start("/root".to_owned()).unwrap();
    assert!(replaced.is_none());
    let mut live = nothing_yet();
    live.files = 2;
    live.current_path = "/root/a".to_owned();
    let status = manager.status(&live, 12);
    assert_eq!(status.state, ScanState::Running);
    assert_eq!(status.root.as_deref(), Some("/root"));
    assert_eq!((status.files, status.duration_ms), (2, 12));
    assert_eq!(status.current_path, "/root/a");
    assert_eq!(manager.root().as_deref(), Some("/root"));
    assert!(manager.ticks(generation));

    let (finished, saved) = Finished::persist(result(), None);
    assert_eq!(saved.unwrap().entries.len(), 2, "the folders of a small scan");
    manager.complete(finished);
    let status = manager.status(&nothing_yet(), 99);
    assert_eq!(status.state, ScanState::Done, "{status:?}");
    assert_eq!((status.files, status.dirs, status.errors), (3, 2, 0));
    assert_eq!((status.bytes, status.duration_ms), (45, 7));
    assert_eq!(status.current_path, "");
    assert_eq!(status.error, None);
    assert!(!status.has_previous);
    assert!(status.previous_taken_at.is_none());
    assert_eq!(children(&manager), vec!["a", "b.bin"]);
    assert!(manager.with_result().unwrap().1.is_none());
    assert!(manager.growers(10).is_empty());
    assert!(!manager.ticks(generation), "nothing is reported after the end");
}

/// What an earlier scan recorded.
fn earlier(entries: &[(&str, u64)]) -> Snapshot {
    Snapshot {
        format: SNAPSHOT_FORMAT,
        taken_at: at(5),
        root: "/root".to_owned(),
        total_bytes: 0,
        file_count: 0,
        file_threshold: 0,
        entries: entries
            .iter()
            .map(|(path, size)| SnapshotEntry {
                path: (*path).to_owned(),
                kind: NodeKind::Dir,
                size: *size,
                file_count: 1,
                mtime: 0,
            })
            .collect(),
    }
}

#[test]
fn the_next_scan_of_the_same_root_sees_the_previous_snapshot() {
    let mut manager = ScanManager::new();
    manager.start("/root".to_owned()).unwrap();
    let before = earlier(&[("/root", 5), ("/root/a", 1)]);
    manager.complete(Finished::persist(result(), Some(before)).0);
    let status = manager.status(&nothing_yet(), 0);
    assert!(status.has_previous);
    assert_eq!(status.previous_taken_at, Some(at(5)));
    let (_, sizes) = manager.with_result().unwrap();
    assert_eq!(sizes.unwrap().get("/root"), Some(5));
    let growers = manager.growers(10);
    assert_eq!(growers.len(), 1, "{growers:?}");
    assert_eq!(growers[0].path, "/root/a");
    assert_eq!(growers[0].delta, 39);
    assert!(manager.growers(0).is_empty());
    assert_eq!(top_growers(&manager, None).len(), 1);
    assert!(top_growers(&manager, Some(0)).is_empty());
}

#[test]
fn a_missing_root_fails_and_leaves_the_store_alone() {
    let mut manager = ScanManager::new();
    manager.start("/definitely/missing".to_owned()).unwrap();
    manager.fail("cannot read /definitely/missing: no such file".to_owned(), 3);
    let status = manager.status(&nothing_yet(), 99);
    assert_eq!(status.state, ScanState::Failed);
    assert!(status.error.as_deref().unwrap().contains("cannot read"), "{status:?}");
    assert_eq!(status.duration_ms, 3);
    assert!(manager.with_result().is_none());
}

#[test]
fn start_refuses_a_second_scan_while_one_runs() {
    let mut manager = ScanManager::new();
    manager.state = ScanState::Running;
    assert_eq!(manager.start("/".to_owned()).unwrap_err(), "a scan is already running");
    assert_eq!(manager.status(&nothing_yet(), 0).state, ScanState::Running);
    assert_eq!(manager.generation, 0);
}

#[test]
fn cancel_while_idle_changes_nothing() {
    let manager = ScanManager::new();
    let mut progress = ScanProgress::default();
    manager.cancel(&mut progress);
    assert!(!progress.is_cancelled());
    assert_eq!(manager.status(&nothing_yet(), 0).state, ScanState::Idle);
    assert!(manager.with_result().is_none());
}

#[test]
fn cancel_while_a_scan_runs_stops_its_walk() {
    let mut manager = ScanManager::new();
    manager.start("/root".to_owned()).unwrap();
    let mut progress = ScanProgress::default();
    manager.cancel(&mut progress);
    assert!(progress.is_cancelled());
    assert_eq!(manager.state, ScanState::Running, "until the walk has finished");
}

#[test]
fn a_ticker_of_an_earlier_scan_stops_without_emitting() {
    let mut manager = ScanManager::new();
    manager.state = ScanState::Running;
    manager.generation = 2;
    assert!(!manager.ticks(1));
    assert!(manager.ticks(2));
}

#[test]
fn a_cancelled_scan_is_neither_saved_nor_compared() {
    let mut partial = result_of(dir("/root", vec![file("f", 5)]));
    partial.cancelled = true;
    partial.stats.files = 0;
    let (finished, saved) = Finished::persist(partial, Some(earlier(&[("/root", 1)])));
    assert!(finished.previous_sizes.is_none());
    assert!(finished.previous_taken_at.is_none());
    assert!(finished.growers.is_empty());
    assert!(saved.is_none());
    let mut manager = ScanManager::new();
    manager.complete(finished);
    assert_eq!(manager.state, ScanState::Cancelled);
    assert_eq!(manager.status(&nothing_yet(), 0).files, 0);
}

#[test]
fn persist_indexes_the_previous_snapshot_before_the_result_is_installed() {
    let scan = || result_of(dir("/root", vec![file("f", 5)]));
    let (first, saved) = Finished::persist(scan(), None);
    assert!(first.previous_sizes.is_none());
    let (second, _) = Finished::persist(scan(), saved);
    let sizes = second.previous_sizes.as_ref().expect("index of the first snapshot");
    assert_eq!(sizes.get("/root"), Some(5));
    assert!(second.previous_taken_at.is_some());
    let mut manager = ScanManager::new();
    manager.complete(second);
    assert_eq!(manager.state, ScanState::Done);
    assert!(manager.status(&nothing_yet(), 0).has_previous);
}

/// A patch whose splice is known to fit.
fn patch(manager: &mut ScanManager, paths: &[&str], answers: Vec<Option<Option<Tree>>>) -> TreeState {
    let paths = strings(paths);
    if let Some(targets) = manager.patch_targets(&paths) {
        assert_eq!(targets.root, "/root");
        assert_eq!(targets.ids.len(), answers.len());
        let (held, _) = manager.with_result().unwrap();
        assert!(held.tree.len() < 100);
        assert!(splice_fits(&held.tree, &Vec::new()));
    }
    manager.patch_paths(&paths, answers)
}

#[test]
fn patching_a_deleted_path_drops_the_branch_and_bumps_the_generation() {
    let mut manager = scanned();
    let generation = manager.generation;
    assert_eq!(patch(&mut manager, &["/root/a"], vec![Some(None)]), TreeState::Current);
    assert_eq!(children(&manager), vec!["b.bin"]);
    assert_eq!(manager.with_result().unwrap().0.tree.root().size, 5);
    assert_eq!(manager.generation, generation + 1, "every id in the arena changed");
}

#[test]
fn a_patch_leaves_the_stats_of_the_scan_that_ran_and_recomputes_the_tree_facts() {
    let mut manager = scanned();
    if let Some(held) = &mut manager.result {
        held.stats.errors = 2;
        held.stats.hardlinks_skipped = 1;
    }
    assert_eq!(patch(&mut manager, &["/root/a"], vec![Some(None)]), TreeState::Current);
    let after = manager.with_result().unwrap().0.stats;
    assert_eq!((after.files, after.dirs, after.bytes), (1, 1, 5));
    assert_eq!(
        (after.errors, after.hardlinks_skipped),
        (2, 1),
        "what the walk met is not the patch's to change"
    );
    let status = manager.status(&nothing_yet(), 0);
    assert_eq!((status.files, status.dirs, status.bytes), (1, 1, 5));
    assert_eq!(status.duration_ms, 7, "the walk took what it took");
}

fn met(path: &str, is_dir: bool, blocks: u64) -> Entry {
    let facts = Facts {
        is_dir,
        is_symlink: false,
        is_file: !is_dir,
        dev: 1,
        ino: 0,
        nlink: 1,
        blocks,
        len: blocks * 512,
        mtime: 0,
    };
    let name = path.rsplit('/').next().unwrap().to_owned();
    Entry::Found { path: path.to_owned(), name, facts }
}

#[test]
fn the_recomputed_tree_facts_agree_with_the_walker() {
    // Two hundred files in fifty directories.
    let mut entries = Vec::new();
    let mut below = Vec::new();
    for d in 0..50 {
        let dir = format!("/root/d{d}");
        let files = (0..4).map(|n| met(&format!("{dir}/f{}", 50 * n + d), false, 8)).collect();
        below.push(Listing::Read { entries: files, below: vec![] });
        entries.push(met(&dir, true, 8));
    }
    let listing = Listing::Read { entries, below };
    let Entry::Found { facts, .. } = met("/root", true, 8) else { unreachable!() };
    let options = scan_options("/root".to_owned());
    let mut progress = ScanProgress::default();
    let result = scan(&options, &Ok(facts), &listing, at(0), 1, &mut progress).unwrap();
    let patched = patched_stats(&result.stats, &result.tree);
    assert_eq!(patched.bytes, result.stats.bytes);
    assert_eq!(patched.files, result.stats.files);
    assert_eq!(patched.dirs, result.stats.dirs);
    assert_eq!((result.stats.files, result.stats.dirs), (200, 51));
}

#[test]
fn a_path_the_tree_does_not_know_is_no_patch_at_all() {
    let mut manager = scanned();
    let generation = manager.generation;
    let unknown = ["/root/never-existed", "/elsewhere", "/link/a"];
    assert_eq!(patch(&mut manager, &unknown, vec![]), TreeState::Current);
    assert_eq!(children(&manager), vec!["a", "b.bin"]);
    assert_eq!(manager.generation, generation, "no splice, so no new ids");
}

#[test]
fn a_path_that_cannot_be_rescanned_keeps_its_branch() {
    let mut manager = scanned();
    let generation = manager.generation;
    assert_eq!(patch(&mut manager, &["/root/a/one.bin"], vec![None]), TreeState::Stale);
    assert_eq!(children(&manager), vec!["a", "b.bin"]);
    let (held, _) = manager.with_result().unwrap();
    assert!(held.tree.find("/root/a/one.bin").is_some(), "the branch is still there");
    assert_eq!(held.tree.root().size, 45);
    assert_eq!(manager.generation, generation, "an empty batch of patches is not a splice");
}

#[test]
fn patching_the_scan_root_is_not_a_patch() {
    let mut manager = scanned();
    let generation = manager.generation;
    assert!(manager.patch_targets(&strings(&["/root"])).is_none());
    assert_eq!(patch(&mut manager, &["/root"], vec![]), TreeState::Current);
    assert_eq!(children(&manager), vec!["a", "b.bin"]);
    assert_eq!(manager.generation, generation);
}

#[test]
fn patching_without_a_result_does_nothing() {
    let mut manager = ScanManager::new();
    assert_eq!(patch(&mut manager, &["/anything"], vec![]), TreeState::Current);
    assert_eq!(manager.generation, 0);
    assert!(manager.with_result().is_none());
}

#[test]
fn a_patch_resolved_against_an_older_arena_is_dropped() {
    let mut manager = scanned();
    let targets = manager.patch_targets(&strings(&["/root/a"])).unwrap();
    assert_eq!(targets.ids.len(), 1);
    let (patches, complete) = rescan_targets(&targets.ids, vec![Some(None)]);
    assert!(complete);
    assert_eq!(patches.len(), 1);

    // A rescan lands between the resolution and the splice.
    manager.start("/root".to_owned()).unwrap();
    manager.complete(Finished::persist(result(), None).0);
    let current = manager.generation;
    assert_ne!(current, targets.generation);

    assert!(!manager.install_patches(targets.generation, patches));
    assert_eq!(manager.generation, current, "a dropped patch changes nothing");
    assert_eq!(children(&manager), vec!["a", "b.bin"]);
}

#[test]
fn a_patch_resolved_against_the_current_arena_is_installed() {
    let mut manager = scanned();
    let targets = manager.patch_targets(&strings(&["/root/a"])).unwrap();
    let (patches, complete) = rescan_targets(&targets.ids, vec![Some(None)]);
    assert!(complete);
    assert_eq!(patches[0].0, targets.ids[0]);
    assert!(patches[0].1.is_none(), "a/ is gone, so it is dropped");
    assert!(manager.install_patches(targets.generation, patches));
    assert_eq!(children(&manager), vec!["b.bin"]);
    assert_eq!(manager.generation, targets.generation + 1);
}

#[test]
fn a_branch_that_grew_back_is_spliced_in_its_place() {
    let mut manager = scanned();
    let grown = dir("/root/a", vec![file("three.bin", 100)]).flatten().0;
    assert_eq!(patch(&mut manager, &["/root/a"], vec![Some(Some(grown))]), TreeState::Current);
    let tree = &manager.with_result().unwrap().0.tree;
    assert_eq!(tree.root().size, 105);
    assert!(tree.find("/root/a/three.bin").is_some());
    assert!(tree.find("/root/a/one.bin").is_none());
}

#[test]
fn the_targets_of_a_batch_are_found_once_each() {
    let scan = result();
    let paths = strings(&["/root/b.bin", "/root/a", "/root/b.bin", "/root", "/nowhere"]);
    let ids: Vec<NodeId> = find_targets(&scan.tree, &paths);
    assert_eq!(ids, vec![1, 2]);
}

#[test]
fn two_directories_of_one_batch_both_leave_the_tree() {
    let tree = dir(
        "/root",
        vec![
            dir("cache", vec![file("blob.bin", 8_192)]),
            dir("logs", vec![file("log.txt", 12_288)]),
            file("keep.bin", 4_096),
        ],
    );
    let mut manager = ScanManager::new();
    manager.complete(Finished::persist(result_of(tree), None).0);
    let gone = ["/root/cache", "/root/logs"];
    let state = patch(&mut manager, &gone, vec![Some(None), Some(None)]);
    assert_eq!(state, TreeState::Current);
    assert_eq!(children(&manager), vec!["keep.bin"], "both rows are gone");
    assert_eq!(manager.with_result().unwrap().0.tree.root().size, 4_096);
}

#[test]
fn the_options_of_every_scan_of_the_window() {
    let options = scan_options("/root".to_owned());
    assert_eq!(options.root, "/root");
    assert!(options.same_device);
}

fn place(path: &str) -> Place {
    let parent = path.rfind('/').map(|cut| path[..cut.max(1)].to_owned());
    Place { path: path.to_owned(), parent, resolved: Some(path.to_owned()) }
}

/// A look at an entry of a disk without links.
fn look(path: &str, kind: Option<NodeKind>) -> EntryLook {
    let missing =
        SystemError { kind: SystemErrorKind::Missing, message: format!("no {path}") };
    EntryLook {
        look: Look {
            parent: Ok(path[..path.rfind('/').unwrap().max(1)].to_owned()),
            seen: Seen::Entry { resolved: Some(path.to_owned()) },
        },
        stat: kind.ok_or(missing),
    }
}

#[test]
fn a_preview_carries_what_the_tree_knows_and_touches_nothing() {
    let manager = scanned();
    let limits = Some(Limits::new(place("/root"), vec![]));
    let paths = strings(&["/root/a", "/root/never-existed.bin"]);
    let looks = vec![look(&paths[0], Some(NodeKind::Dir)), look(&paths[1], None)];
    let preview = preview_batch(&manager, &limits, &paths, &looks, Mode::Trash);
    assert_eq!(preview.mode, Mode::Trash);
    assert_eq!(preview.entries[0].path, "/root/a");
    assert_eq!(preview.entries[0].kind, NodeKind::Dir);
    assert_eq!(preview.entries[0].size, 40, "the size the Explorer showed");
    assert_eq!(preview.entries[1].size, 0, "a path the tree never saw");
    assert_eq!(preview.entries[1].status, EntryStatus::Blocked(BlockReason::Missing));
    assert_eq!(preview.total_bytes, 40, "blocked entries promise nothing");
}

#[test]
fn a_batch_without_a_scan_deletes_nothing() {
    let manager = ScanManager::new();
    let paths = strings(&["/root/cache"]);
    let plan = plan_for(&manager, &paths, Mode::Permanent);
    assert_eq!(plan.entries[0].kind, NodeKind::Other);
    assert_eq!(plan.entries[0].size, 0);
    let refused = EntryStatus::Blocked(BlockReason::OutsideRoots);
    assert_eq!(refused_preview(&plan).entries[0].status, refused);
    let shown = preview_batch(&manager, &None, &paths, &vec![], Mode::Permanent);
    assert_eq!(shown.entries[0].status, refused);
    let outcome = refused_outcome(&plan, at(9));
    assert_eq!(
        outcome.entries[0].result,
        EntryResult::Skipped { reason: BlockReason::OutsideRoots },
        "with no scan root, nothing is inside it"
    );
    assert_eq!((outcome.freed_bytes, outcome.at), (0, at(9)));
}

#[test]
fn every_entry_of_the_batch_reaches_the_log() {
    let manager = scanned();
    let limits = Some(Limits::new(place("/root"), vec![]));
    let paths = strings(&["/root/a", "/elsewhere/precious.bin", "/root/never-existed.bin"]);
    let kinds = [Some(NodeKind::Dir), Some(NodeKind::File), None];
    let mut looks = Vec::new();
    let mut runs = Vec::new();
    for (path, kind) in paths.iter().zip(kinds) {
        looks.push(look(path, kind));
        runs.push(EntryRun { look: look(path, kind), attempt: Ok(()) });
    }
    let batch = run_batch(&manager, &limits, &paths, &looks, &runs, Mode::Trash, at(9));
    assert_eq!(batch.outcome.freed_bytes, 40);
    assert_eq!(batch.outcome.entries[0].result, EntryResult::Removed { bytes: 40 });
    assert_eq!(batch.lines.len(), 3);
    assert!(batch.lines.iter().all(|line| line.at == at(9) && line.mode == Mode::Trash));
    assert_eq!(batch.lines[0].bytes, 40);
    assert_eq!(batch.lines[0].detail, None);
    assert_eq!(batch.lines[1].detail.as_deref(), Some("outsideRoots"));
    assert_eq!(batch.lines[2].detail.as_deref(), Some("missing"));
    assert_eq!(batch.changed, strings(&["/root/a"]));

    let nowhere = ScanManager::new();
    let refused = run_batch(&nowhere, &None, &paths, &vec![], &vec![], Mode::Trash, at(9));
    assert_eq!(refused.lines.len(), 3);
    assert!(refused.changed.is_empty());
    assert!(refused.lines.iter().all(|l| l.detail.as_deref() == Some("outsideRoots")));
}

#[test]
fn an_empty_batch_does_nothing_at_all() {
    let limits = Some(Limits::new(place("/root"), vec![]));
    let none = run_batch(&scanned(), &limits, &vec![], &vec![], &vec![], Mode::Permanent, at(9));
    assert!(none.outcome.entries.is_empty() && none.lines.is_empty() && none.changed.is_empty());
}

#[test]
fn an_entry_that_was_already_gone_leaves_the_tree_alone() {
    let paths = strings(&["/link/gone", "/link/went", "/link/half"]);
    let results = [
        EntryResult::Skipped { reason: BlockReason::Missing },
        EntryResult::Removed { bytes: 1 },
        EntryResult::Failed { message: "busy".to_owned() },
    ];
    let mut entries = Vec::new();
    for (path, result) in ["/real/gone", "/real/went", "/real/half"].iter().zip(results) {
        entries.push(EntryOutcome { path: (*path).to_owned(), kind: NodeKind::Dir, result });
    }
    let outcome = tally(entries, at(0), Mode::Trash);
    assert_eq!(
        touched(&paths, &outcome),
        strings(&["/link/went", "/link/half"]),
        "in the spelling the scan recorded"
    );
}

fn cleaned(item: &str, targets: &[&str], result: EntryResult) -> CleanupEntryOutcome {
    CleanupEntryOutcome {
        item: item.to_owned(),
        module: "demo".to_owned(),
        title: item.to_owned(),
        action: "Delete".to_owned(),
        path: None,
        kind: None,
        targets: strings(targets),
        mode: Mode::Trash,
        commands: Vec::new(),
        result,
    }
}

fn cleanup() -> CleanupOutcome {
    CleanupOutcome {
        entries: vec![
            cleaned("demo:a", &["/r/a"], EntryResult::Removed { bytes: 3 }),
            cleaned("demo:b", &["/r/b", "/r/c"], EntryResult::Failed { message: "x".to_owned() }),
            cleaned("demo:c", &[], EntryResult::Skipped { reason: BlockReason::Kept }),
        ],
        freed_bytes: 3,
        at: at(0),
        mode: Mode::Trash,
    }
}

#[test]
fn what_a_cleanup_removed_is_forgotten_and_what_it_reached_is_rescanned() {
    assert_eq!(removed_items(&cleanup()), strings(&["demo:a"]));
    assert_eq!(changed_targets(&cleanup()), strings(&["/r/a", "/r/b", "/r/c"]));
    let asked = vec![
        Request { item: "demo:a".to_owned(), action: "x".to_owned(), options: vec![] },
        Request { item: "other:b".to_owned(), action: "x".to_owned(), options: vec![] },
    ];
    assert_eq!(asked_items(&asked), strings(&["demo:a", "other:b"]));
}

#[test]
fn a_batch_cleans_records_forgets_and_rediscovers() {
    // A folder that is deleted, and an object a command removes.
    let mut world = world(&["build-cache", "old.object"]);
    let object = Target::new("/root/old.object", NodeKind::File);
    world.plans.lines[1].steps = vec![Step::Run {
        command: Command::new("rm").arg("/root/old.object"),
        effect: Effect::Removes(object),
    }];
    let mut scans = scanned();
    let cleaned = world.run(home()).unwrap();

    let results: Vec<&EntryResult> = cleaned.outcome.entries.iter().map(|e| &e.result).collect();
    assert!(results.iter().all(|r| matches!(r, EntryResult::Removed { .. })), "{results:?}");
    assert_eq!(cleaned.rest.targets, strings(&["/root/build-cache", "/root/old.object"]));
    assert_eq!(cleaned.outcome.at, at(4));

    let tail = tail(cleaned.lines.iter().cloned().map(Some).collect(), 10);
    assert_eq!(tail.len(), 2);
    assert_eq!(tail[0].path, "old.object");
    assert_eq!(tail[0].result, LogResult::Removed);
    assert_eq!(tail[0].mode, Mode::Permanent, "the object left for good");
    assert_eq!(tail[1].mode, Mode::Trash, "the folder is in the Trash");
    assert_eq!((tail[0].at, tail[0].bytes), (at(4), 7));

    // Gone from the screen at once, and a rediscovery of the demo is on its way.
    assert!(titles(&world.manager, 10).is_empty());
    assert_eq!(cleaned.rest.started, vec![(0, 2)]);
    assert_eq!(world.manager.list()[0].status, ModuleStatus::Discovering);
    let result = told(&mut scans, cleaned);
    assert!(result.recorded);
    assert!(!result.tree_stale);
}

#[test]
fn a_cleanup_is_recorded_entry_by_entry() {
    let mut outcome = cleanup();
    outcome.entries[0].path = Some("/r/a".to_owned());
    outcome.entries[0].kind = Some(NodeKind::Dir);
    let lines = cleanup_lines(&outcome);
    assert_eq!((lines[0].path.as_str(), lines[0].kind, lines[0].bytes), ("/r/a", NodeKind::Dir, 3));
    assert_eq!((lines[1].path.as_str(), lines[1].kind), ("demo:b", NodeKind::Other));
    assert_eq!((lines[1].result, lines[1].detail.as_deref()), (LogResult::Failed, Some("x")));
    assert_eq!((lines[2].result, lines[2].detail.as_deref()), (LogResult::Skipped, Some("kept")));
}

#[test]
fn what_a_batch_was_about_is_discovered_again_and_nothing_else() {
    let mut manager = modules(&["demo", "other"]);
    let items = vec![item("demo", "a", 1, Level::Safe), item("demo", "b", 2, Level::Safe)];
    let others = vec![item("other", "x", 3, Level::Safe)];
    discover(&mut manager, vec![Found::Items(items), Found::Items(others)]);
    let asked = vec![
        Request { item: "demo:a".to_owned(), action: "go".to_owned(), options: vec![] },
        Request { item: "demo:b".to_owned(), action: "go".to_owned(), options: vec![] },
    ];
    let rest = settle(&mut manager, &asked, &cleanup());
    assert_eq!(titles(&manager, 10), vec!["x", "b"], "gone from the screen at once");
    assert_eq!(rest.targets, strings(&["/r/a", "/r/b", "/r/c"]));
    assert_eq!(rest.started, vec![(0, 2)], "and a rediscovery is on its way");
    let views = manager.list();
    assert_eq!(views[0].status, ModuleStatus::Discovering);
    assert_eq!(views[1].status, ModuleStatus::Ready);
    let none = CleanupOutcome { entries: vec![], ..cleanup() };
    assert!(settle(&mut manager, &Vec::new(), &none).started.is_empty());
}

#[test]
fn preview_answers_both_modes_aligned() {
    let action = ActionSpec {
        id: "delete".to_owned(),
        label: "Delete".to_owned(),
        estimated_free: 7,
        options: vec![],
    };
    let mut folder = item("demo", "build-cache", 7, Level::Safe);
    folder.actions.push(action);
    let step = Step::Delete(Target::new("/h/build-cache", NodeKind::Dir));
    let mut plans = Plans { lines: Vec::new() };
    for mode in [Mode::Trash, Mode::Permanent] {
        plans.lines.push(PlanLine {
            item: folder.id.clone(),
            action: "delete".to_owned(),
            options: vec![],
            mode,
            steps: vec![step.clone()],
        });
    }
    let items = vec![folder];
    let held = Held::new(&vec![(&plans, &items)]);
    let request = Request {
        item: "demo:build-cache".to_owned(),
        action: "delete".to_owned(),
        options: vec![],
    };
    let limits = Limits::new(place("/h"), vec![]);
    let looks = || vec![vec![look("/h/build-cache", Some(NodeKind::Dir))]];
    let shown = preview_cleanup(&vec![request], &held, &limits, &looks(), &looks());
    let (trash, permanent) = (&shown.trash, &shown.permanent);
    assert_eq!(trash.entries[0].item, permanent.entries[0].item);
    assert!(matches!(trash.entries[0].steps[0], StepView::Trash { .. }));
    assert!(trash.entries[0].reversible);
    assert!(matches!(permanent.entries[0].steps[0], StepView::Delete { .. }));
    assert!(!permanent.entries[0].reversible);
    assert_eq!(trash.entries[0].status, EntryStatus::Ready);
    assert_eq!((trash.total_bytes, permanent.total_bytes), (7, 7));
}

/// The things a demo module found under a scanned root, and how it removes them.
struct World {
    manager: ModuleManager,
    plans: Plans,
    items: Vec<Item>,
}

fn world(names: &[&str]) -> World {
    let mut items = Vec::new();
    let mut lines = Vec::new();
    for name in names {
        let mut folder = item("demo", name, 7, Level::Safe);
        folder.actions.push(ActionSpec {
            id: "delete".to_owned(),
            label: "Delete".to_owned(),
            estimated_free: 7,
            options: vec![],
        });
        lines.push(PlanLine {
            item: folder.id.clone(),
            action: "delete".to_owned(),
            options: vec![],
            mode: Mode::Trash,
            steps: vec![Step::Delete(Target::new(&format!("/root/{name}"), NodeKind::Dir))],
        });
        items.push(folder);
    }
    let mut manager = modules(&["demo"]);
    discover(&mut manager, vec![Found::Items(items.clone())]);
    World { manager, plans: Plans { lines }, items }
}

impl World {
    /// A batch of everything, on a machine that does what it is asked to do.
    fn run(&mut self, limits: Option<Limits>) -> Result<Cleaned, String> {
        let held = Held::new(&vec![(&self.plans, &self.items)]);
        let mut requests = Vec::new();
        let mut looks = Vec::new();
        let mut runs = Vec::new();
        for (item, line) in self.items.iter().zip(&self.plans.lines) {
            let (target, _) = targets(&line.steps)[0];
            let (path, kind) = (target.path.clone(), Some(target.kind));
            requests.push(Request {
                item: item.id.clone(),
                action: "delete".to_owned(),
                options: vec![],
            });
            looks.push(vec![look(&path, kind)]);
            let done = Output { status: Some(0), stdout: vec![], stderr: vec![] };
            runs.push(vec![StepRun {
                look: look(&path, kind),
                deleted: Ok(()),
                ran: Some(Ok(done)),
            }]);
        }
        let manager = &mut self.manager;
        run_cleanup(manager, &requests, &held, &limits, &looks, &runs, Mode::Trash, at(4))
    }
}

fn home() -> Option<Limits> {
    Some(Limits::new(place("/root"), vec![]))
}

/// What the window tells of a batch whose targets are all gone from the disk.
fn told(scans: &mut ScanManager, cleaned: Cleaned) -> CleanupResult {
    let parents = cleaned.rest.targets.iter().map(|_| Some("/root".to_owned())).collect();
    let paths = tree_paths("/root", "/root", &cleaned.rest.targets, &parents);
    let gone = find_targets(&scans.with_result().unwrap().0.tree, &paths).len();
    let state = scans.patch_paths(&paths, (0..gone).map(|_| Some(None)).collect());
    cleanup_result(cleaned.outcome, true, Some(state))
}

#[test]
fn a_cleanup_runs_what_was_planned_and_settles_it() {
    let mut world = world(&["build-cache"]);
    assert_eq!(world.run(None).unwrap_err(), "cannot determine the home folder");
    assert_eq!(titles(&world.manager, 10), vec!["build-cache"], "nothing ran");
    let cleaned = world.run(home()).unwrap();
    assert_eq!(cleaned.outcome.freed_bytes, 7);
    assert_eq!(cleaned.outcome.entries[0].result, EntryResult::Removed { bytes: 7 });
    assert_eq!(cleaned.outcome.entries[0].targets, strings(&["/root/build-cache"]));
    assert_eq!(cleaned.rest.targets, strings(&["/root/build-cache"]));
    assert_eq!(cleaned.rest.started, vec![(0, 2)]);
    assert!(titles(&world.manager, 10).is_empty(), "gone from the screen at once");
}

#[test]
fn progress_is_emitted_per_entry() {
    let seen = world(&["build-cache", "cache"]).run(home()).unwrap().reports;
    assert_eq!(
        seen.iter().map(|p| (p.done, p.total)).collect::<Vec<_>>(),
        vec![(0, 2), (1, 2), (2, 2)]
    );
    assert_eq!(seen[0].current.as_deref(), Some("build-cache"));
    assert_eq!(seen[2].current, None);
}

#[test]
fn a_batch_patches_the_explorer_tree() {
    let mut scans = scanned();
    assert_eq!(children(&scans), vec!["a", "b.bin"], "the scan saw it");
    let before = scans.status(&nothing_yet(), 0).bytes;
    let cleaned = world(&["a"]).run(home()).unwrap();
    let result = told(&mut scans, cleaned);
    assert!(!result.tree_stale);
    assert_eq!(children(&scans), vec!["b.bin"], "the row is gone");
    assert!(scans.status(&nothing_yet(), 0).bytes < before, "and the root shrank");
}

#[test]
fn a_target_the_scan_never_saw_is_not_stale() {
    let mut scans = scanned();
    let cleaned = world(&["build-cache"]).run(home()).unwrap();
    let result = told(&mut scans, cleaned);
    assert!(matches!(result.outcome.entries[0].result, EntryResult::Removed { .. }));
    assert!(!result.tree_stale, "no row was left behind, so nothing to warn about");
    assert_eq!(children(&scans), vec!["a", "b.bin"]);
}

#[test]
fn a_patch_keeps_what_the_walk_met() {
    let mut manager = scanned();
    // Two entries that could not be read, of which the error table holds one, and a link.
    if let Some(held) = &mut manager.result {
        held.stats.errors = 2;
        held.stats.hardlinks_skipped = 1;
    }
    let before = manager.with_result().unwrap().0.stats;
    assert_eq!(patch(&mut manager, &["/root/a"], vec![Some(None)]), TreeState::Current);
    let after = manager.with_result().unwrap().0.stats;
    assert_eq!(after.errors, 2, "the walk met two, and the error table holds one");
    assert_eq!(after.hardlinks_skipped, 1);
    assert_eq!(after.files, before.files - 2, "a/ took two files with it");
    assert_eq!(after.dirs, before.dirs - 1);
}

#[test]
fn a_tree_that_was_not_patched_to_the_end_is_stale() {
    assert!(!cleanup_result(cleanup(), true, Some(TreeState::Current)).tree_stale);
    assert!(cleanup_result(cleanup(), true, Some(TreeState::Stale)).tree_stale);
    let told = cleanup_result(cleanup(), false, None);
    assert!(told.tree_stale);
    assert!(!told.recorded);
    assert_eq!(told.outcome, cleanup());
}

#[test]
fn a_target_spelled_otherwise_is_moved_into_the_scan_spelling() {
    // The root was scanned through a link, and the targets are the resolved paths.
    let targets = strings(&["/real/home/a/build", "/link/b", "/elsewhere/x"]);
    let parents =
        vec![Some("/real/home/a".to_owned()), Some("/real/home".to_owned()), Some("/elsewhere".to_owned())];
    assert_eq!(
        tree_paths("/link", "/real/home", &targets, &parents),
        strings(&["/link/a/build", "/link/b"])
    );
}

#[test]
fn scan_spelling_leaves_a_path_outside_the_scan_alone() {
    assert_eq!(scan_spelling("/out/x", "/root", "/root", Some("/out")), None);
    assert_eq!(
        scan_spelling("/root/a/b", "/root", "/root", Some("/root/a")).as_deref(),
        Some("/root/a/b"),
        "the scan's own spelling passes as it is"
    );
    assert_eq!(scan_spelling("/gone/x", "/link", "/root", None), None);
}

#[test]
fn without_a_home_folder_no_batch_runs() {
    assert_eq!(need_home(None).unwrap_err(), "cannot determine the home folder");
    assert_eq!(need_home(Some("/h")).unwrap(), "/h");
}

#[test]
fn default_root_is_the_home_folder() {
    assert_eq!(default_root(Some("/home/me")).unwrap(), "/home/me");
    assert_eq!(default_root(None).unwrap_err(), "cannot determine the home folder");
    assert_eq!(scan_root(Some("/picked"), Some("/home/me")).unwrap(), "/picked");
    assert_eq!(scan_root(None, Some("/home/me")).unwrap(), "/home/me");
}

#[test]
fn the_volume_asked_about_is_the_nearest_that_is_known() {
    assert_eq!(usage_path(Some("/a"), Some("/b"), Some("/c")).unwrap(), "/a");
    assert_eq!(usage_path(None, Some("/b"), Some("/c")).unwrap(), "/b");
    assert_eq!(usage_path(None, None, Some("/c")).unwrap(), "/c");
    assert!(usage_path(None, None, None).is_err());
    assert_eq!(usage_error("/a", "gone"), "cannot read the volume of /a: gone");
    assert_eq!(batch_error("it panicked"), "the batch did not finish: it panicked");
}

#[test]
fn a_page_of_the_tree_or_why_there_is_none() {
    let manager = scanned();
    let page = tree_node(&manager, None, None).unwrap();
    assert_eq!((page.id, page.children.len()), (Tree::ROOT, 2));
    assert_eq!(tree_node(&manager, Some(1), Some(1)).unwrap().children.len(), 1);
    assert!(tree_node(&manager, Some(99), None).is_err());
    assert!(tree_node(&ScanManager::new(), None, None).is_err());
}

fn item(module: &str, name: &str, bytes: u64, level: Level) -> Item {
    Item {
        id: format!("{module}:{name}"),
        module: module.to_owned(),
        kind: "thing".to_owned(),
        title: name.to_owned(),
        subtitle: None,
        path: None,
        size: Size::exact(bytes),
        last_used: None,
        verdict: Verdict::new(level, vec![Reason::new("because", "Because")]),
        facts: Vec::new(),
        actions: Vec::new(),
    }
}

fn modules(ids: &[&str]) -> ModuleManager {
    let mut registry = Vec::new();
    for id in ids {
        registry.push(Descriptor {
            id: (*id).to_owned(),
            name: "Probe".to_owned(),
            description: "A module a test drives".to_owned(),
            tools: Vec::new(),
        });
    }
    ModuleManager::new(registry, Some("/h".to_owned()))
}

/// Every module looks again, and finds this.
fn discover(manager: &mut ModuleManager, found: Vec<Found>) -> Vec<ModuleView> {
    let started = manager.refresh(&Vec::new());
    for ((index, generation), found) in started.into_iter().zip(found) {
        assert!(manager.finish(index, generation, found, at(77)));
    }
    manager.list()
}

fn titles(manager: &ModuleManager, limit: usize) -> Vec<&str> {
    manager.items(limit).0.iter().map(|row| row.item.title.as_str()).collect()
}

#[test]
fn a_module_is_idle_until_refreshed() {
    let views = modules(&["probe"]).list();
    assert_eq!(views.len(), 1);
    assert_eq!(views[0].status, ModuleStatus::Idle);
    assert_eq!(views[0].item_count, 0);
    assert_eq!(views[0].name, "Probe");
    assert_eq!(modules(&[]).home(), Some("/h"));
}

#[test]
fn refresh_discovers_and_emits_each_state() {
    let mut manager = modules(&["probe"]);
    let started = manager.refresh(&Vec::new());
    assert_eq!(started.len(), 1);
    assert_eq!(manager.list()[0].status, ModuleStatus::Discovering);
    let items =
        vec![item("probe", "a", 10, Level::Safe), item("probe", "b", 5, Level::Review)];
    let found = Found::of(Ok(items));
    assert!(manager.finish(started[0].0, started[0].1, found, at(77)));
    let ready = &manager.list()[0];
    assert_eq!(ready.status, ModuleStatus::Ready);
    assert_eq!(ready.item_count, 2);
    assert_eq!(ready.total_bytes, 15);
    assert_eq!(ready.safe_bytes, 10);
    assert_eq!(ready.discovered_at, Some(at(77)));
    assert_eq!(ready.reason, None);
}

#[test]
fn an_unavailable_module_says_why_and_holds_no_items() {
    let mut manager = modules(&["probe"]);
    let items = vec![item("probe", "a", 1, Level::Safe)];
    let views = discover(&mut manager, vec![Found::Items(items)]);
    assert_eq!(views[0].item_count, 1);
    let missing = Found::Unavailable("`probe` is not installed".to_owned());
    let gone = &discover(&mut manager, vec![missing])[0];
    assert_eq!(gone.status, ModuleStatus::Unavailable);
    assert_eq!(gone.reason.as_deref(), Some("`probe` is not installed"));
    assert_eq!(gone.item_count, 0, "nothing could act on them");
    assert!(manager.items(10).0.is_empty());
}

#[test]
fn a_module_that_fails_keeps_the_items_of_its_last_success() {
    let mut manager = modules(&["probe"]);
    discover(&mut manager, vec![Found::Items(vec![item("probe", "a", 1, Level::Safe)])]);
    let error = ModuleError::Other("the daemon did not answer".to_owned());
    let failed = &discover(&mut manager, vec![Found::of(Err(error))])[0];
    assert_eq!(failed.status, ModuleStatus::Failed);
    assert_eq!(failed.reason.as_deref(), Some("the daemon did not answer"));
    assert_eq!(failed.item_count, 1, "a failed refresh does not empty the screen");
    assert_eq!(manager.items(10).0.len(), 1);
}

#[test]
fn a_panicking_module_ends_failed() {
    let mut manager = modules(&["probe"]);
    let said = panicked(Some("probe exploded on call 0"));
    let failed = &discover(&mut manager, vec![Found::Failed(said)])[0];
    assert_eq!(failed.status, ModuleStatus::Failed);
    assert_eq!(
        failed.reason.as_deref(),
        Some("the module panicked: probe exploded on call 0")
    );
    assert_eq!(panicked(None), "the module panicked: unknown panic");
}

#[test]
fn an_older_discovery_cannot_overwrite_a_newer_one() {
    let mut manager = modules(&["probe"]);
    let first = manager.refresh(&Vec::new())[0];
    let second = manager.refresh(&Vec::new())[0];
    let new = Found::Items(vec![item("probe", "new", 2, Level::Safe)]);
    let old = Found::Items(vec![item("probe", "old", 1, Level::Safe)]);
    assert!(manager.finish(second.0, second.1, new, at(2)));
    assert!(!manager.finish(first.0, first.1, old, at(3)), "a stale discovery says nothing");
    assert_eq!(titles(&manager, 10), vec!["new"]);
    assert_eq!(manager.list()[0].discovered_at, Some(at(2)));
}

#[test]
fn refresh_starts_only_the_modules_it_names() {
    let mut manager = modules(&["first", "second"]);
    let started = manager.refresh(&strings(&["second", "nobody"]));
    assert_eq!(started.len(), 1);
    assert_eq!(started[0].0, 1);
    let views = manager.list();
    assert_eq!(views[0].status, ModuleStatus::Idle);
    assert_eq!(views[1].status, ModuleStatus::Discovering);
}

#[test]
fn items_are_largest_first_across_modules_and_capped() {
    let mut manager = modules(&["first", "second"]);
    let first =
        vec![item("first", "small", 1, Level::Safe), item("first", "large", 30, Level::Safe)];
    let second = vec![item("second", "middle", 20, Level::Keep)];
    discover(&mut manager, vec![Found::Items(first), Found::Items(second)]);
    assert_eq!(titles(&manager, 2), vec!["large", "middle"]);
    assert_eq!(manager.items(2).1, 3);
}

#[test]
fn held_items_come_with_their_module() {
    let mut manager = modules(&["probe"]);
    discover(&mut manager, vec![Found::Items(vec![item("probe", "a", 1, Level::Safe)])]);
    let held = manager.held();
    assert_eq!(held.len(), 1);
    assert_eq!(manager.registry[held[0].0].id, "probe");
    assert_eq!(held[0].1[0].title, "a");
}

#[test]
fn forget_drops_items_until_the_next_discovery() {
    let mut manager = modules(&["probe"]);
    let items = || {
        vec![item("probe", "a", 1, Level::Safe), item("probe", "b", 2, Level::Safe)]
    };
    discover(&mut manager, vec![Found::Items(items())]);
    manager.forget(&strings(&["probe:b"]));
    assert_eq!(titles(&manager, 10), vec!["a"]);
    assert_eq!(manager.list()[0].item_count, 1);
    discover(&mut manager, vec![Found::Items(items())]);
    assert_eq!(manager.items(10).0.len(), 2, "the next discovery finds what is there");
}

#[test]
fn modules_of_names_the_modules_of_some_items() {
    let manager = modules(&["first", "second"]);
    assert_eq!(
        manager.modules_of(&strings(&["second:x", "nobody:y"])),
        strings(&["second"])
    );
}

#[test]
fn without_a_home_folder_every_discovery_fails() {
    let mut manager = modules(&["probe"]);
    let failed = &discover(&mut manager, vec![Found::without_home()])[0];
    assert_eq!(failed.status, ModuleStatus::Failed);
    assert_eq!(failed.reason.as_deref(), Some("cannot determine the home folder"));
}
