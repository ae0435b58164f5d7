use std::collections::BTreeMap;
use std::path::{Component, Path};

use storage_monitor::action::engine::{
    conclude, execute, preview, recheck, run_entry, tally, Admission, EntryLook, EntryRun,
    SystemError, SystemErrorKind,
};
use storage_monitor::action::guards::{Limits, Look, Place, Seen, Trouble};
use storage_monitor::action::model::{
    BlockReason, EntryResult, EntryStatus, Mode, Outcome, Plan, PlanEntry, Preview, PreviewEntry,
    Timestamp,
};
use storage_monitor::scan::NodeKind;

/// What is at one path of a [`Disk`].
enum Thing {
    Dir,
    File,
    Link(String),
    Socket,
}

/// A file system as the rules see it: what can be asked of a path, and the answers.
struct Disk {
    things: BTreeMap<String, Thing>,
    /// One name in two spellings opens the same entry.
    folded: bool,
}

impl Disk {
    fn new() -> Disk {
        Disk { things: BTreeMap::new(), folded: false }
    }

    fn put(&mut self, path: &str, thing: Thing) {
        let mut above = String::new();
        let names: Vec<&str> = path.split('/').filter(|name| !name.is_empty()).collect();
        for name in &names[..names.len().saturating_sub(1)] {
            above.push('/');
            above.push_str(name);
            self.things.entry(above.clone()).or_insert(Thing::Dir);
        }
        self.things.insert(path.to_owned(), thing);
    }

    fn dir(mut self, path: &str) -> Disk {
        self.put(path, Thing::Dir);
        self
    }

    fn file(mut self, path: &str) -> Disk {
        self.put(path, Thing::File);
        self
    }

    fn link(mut self, path: &str, target: &str) -> Disk {
        self.put(path, Thing::Link(target.to_owned()));
        self
    }

    /// The path under which the disk keeps what `path` names there, link or not.
    fn spelled(&self, path: &str) -> Option<String> {
        if self.things.contains_key(path) {
            return Some(path.to_owned());
        }
        if !self.folded {
            return None;
        }
        let wanted = path.to_lowercase();
        self.things.keys().find(|known| known.to_lowercase() == wanted).cloned()
    }

    fn entry(&self, dir: &str, name: &str) -> Result<String, Trouble> {
        if dir != "/" {
            match self.things.get(dir) {
                Some(Thing::Dir) => {}
                _ => return Err(Trouble::Other),
            }
        }
        let path = if dir == "/" { format!("/{name}") } else { format!("{dir}/{name}") };
        self.spelled(&path).ok_or(Trouble::NotFound)
    }

    /// The whole path resolved, with every link followed.
    fn resolve(&self, path: &str) -> Result<String, Trouble> {
        if path.is_empty() {
            return Err(Trouble::NotFound);
        }
        let mut at = "/work".to_owned();
        for component in Path::new(path).components() {
            match component {
                Component::RootDir => at = "/".to_owned(),
                Component::ParentDir => {
                    let up = at.rfind('/').unwrap_or(0);
                    at.truncate(up.max(1));
                }
                Component::Normal(name) => {
                    let found = self.entry(&at, name.to_str().unwrap())?;
                    at = match &self.things[&found] {
                        Thing::Link(target) => self.resolve(target)?,
                        _ => found,
                    };
                }
                _ => {}
            }
        }
        Ok(at)
    }

    fn place(&self, path: &str) -> Place {
        let parent = Path::new(path).parent().and_then(|parent| parent.to_str());
        Place {
            path: path.to_owned(),
            parent: parent.and_then(|parent| self.resolve(parent).ok()),
            resolved: self.resolve(path).ok(),
        }
    }

    fn look(&self, path: &str) -> Look {
        let parts = (Path::new(path).parent(), Path::new(path).file_name());
        let (Some(parent), Some(name)) = parts else {
            return Look { parent: Err(Trouble::Other), seen: Seen::Unseen(Trouble::Other) };
        };
        let parent = self.resolve(parent.to_str().unwrap());
        let seen = match &parent {
            Err(trouble) => Seen::Unseen(*trouble),
            Ok(parent) => match self.entry(parent, name.to_str().unwrap()) {
                Err(trouble) => Seen::Unseen(trouble),
                Ok(found) => match &self.things[&found] {
                    Thing::Link(_) => Seen::Link,
                    _ => Seen::Entry { resolved: Some(found) },
                },
            },
        };
        Look { parent, seen }
    }

    /// The kind of the entry itself, link or not.
    fn stat(&self, path: &str) -> Result<NodeKind, SystemError> {
        match self.spelled(path) {
            None => Err(missing(path)),
            Some(found) => Ok(match &self.things[&found] {
                Thing::Dir => NodeKind::Dir,
                Thing::File => NodeKind::File,
                Thing::Link(_) => NodeKind::Symlink,
                Thing::Socket => NodeKind::Other,
            }),
        }
    }

    /// What the engine is told about a path: the guards' look, and a stat of the path that
    /// they would hand on.
    fn look_at(&self, path: &str) -> EntryLook {
        let look = self.look(path);
        let name = Path::new(path).file_name().and_then(|name| name.to_str());
        let stat = match (&look.parent, name) {
            (Ok(parent), Some(name)) => self.stat(&format!("{parent}/{name}")),
            _ => Err(missing(path)),
        };
        EntryLook { look, stat }
    }

    /// Deletes an entry with everything below it.
    fn remove(&mut self, path: &str) -> Result<(), SystemError> {
        match self.spelled(path) {
            None => Err(missing(path)),
            Some(found) => {
                let below = format!("{found}/");
                self.things.retain(|known, _| *known != found && !known.starts_with(&below));
                Ok(())
            }
        }
    }

    fn has(&self, path: &str) -> bool {
        self.things.contains_key(path)
    }

    fn limits(&self, root: &str, denied: &[&str]) -> Limits {
        Limits::new(self.place(root), denied.iter().map(|path| self.place(path)).collect())
    }

    fn preview(&self, plan: &Plan, limits: &Limits) -> Preview {
        let looks = plan.entries.iter().map(|entry| self.look_at(&entry.path)).collect();
        preview(plan, limits, &looks)
    }

    /// Runs a batch entry by entry, each judged on what the disk says by then. `failing`
    /// cannot be deleted, and `vanishing` is gone the moment it is about to be.
    fn execute(&mut self, shown: &Preview, limits: &Limits, between: Between) -> Batch {
        let mut entries = Vec::new();
        let mut runs = Vec::new();
        let mut done = Vec::new();
        for entry in &shown.entries {
            let mut look = self.look_at(&entry.path);
            if let Between::Stat(error) = &between {
                look.stat = Err(error.clone());
            }
            let mut attempt = Ok(());
            let outcome = match recheck(entry, shown.mode, limits, &look) {
                Admission::Skipped(outcome) => outcome,
                Admission::Delete { path, mode } => {
                    assert_eq!(mode, shown.mode, "the mode the user confirmed");
                    done.push(path.clone());
                    attempt = match &between {
                        Between::Failing(failing) if *failing == path => Err(refused(&path)),
                        Between::Vanishing(gone) if *gone == path => {
                            self.remove(&path).unwrap();
                            self.remove(&path)
                        }
                        _ => self.remove(&path),
                    };
                    conclude(entry, path, &attempt)
                }
            };
            let run = EntryRun { look, attempt };
            assert_eq!(run_entry(entry, shown.mode, limits, &run), outcome);
            entries.push(outcome);
            runs.push(run);
        }
        let outcome = tally(entries, started(), shown.mode);
        assert_eq!(execute(shown, limits, &runs, started()), outcome);
        Batch { outcome, done }
    }
}

/// What goes wrong while a batch runs.
enum Between {
    Nothing,
    Stat(SystemError),
    Failing(String),
    Vanishing(String),
}

struct Batch {
    outcome: Outcome,
    /// The paths that were handed over for deletion, in order.
    done: Vec<String>,
}

fn missing(path: &str) -> SystemError {
    SystemError { kind: SystemErrorKind::Missing, message: format!("{path} no longer exists") }
}

fn rejected(path: &str) -> SystemError {
    SystemError { kind: SystemErrorKind::Rejected, message: format!("{path} is not a path") }
}

fn refused(path: &str) -> SystemError {
    SystemError { kind: SystemErrorKind::Other, message: format!("{path}: not permitted") }
}

fn started() -> Timestamp {
    Timestamp { secs: 1_700_000_000, nanos: 5 }
}

/// Sizes rise with the position (10, 20, 30), so that a total over a batch names one entry
/// and not just a count of them.
fn plan(names: &[&str], mode: Mode) -> Plan {
    let mut entries = Vec::new();
    for name in names {
        let size = 10 * (entries.len() as u64 + 1);
        entries.push(entry(&format!("/r/{name}"), NodeKind::File, size));
    }
    Plan { entries, mode }
}

fn entry(path: &str, kind: NodeKind, size: u64) -> PlanEntry {
    PlanEntry { path: path.to_owned(), kind, size }
}

fn batch(entries: Vec<PlanEntry>, mode: Mode) -> Plan {
    Plan { entries, mode }
}

fn statuses(shown: &Preview) -> Vec<EntryStatus> {
    shown.entries.iter().map(|entry| entry.status).collect()
}

fn blocked(reason: BlockReason) -> EntryStatus {
    EntryStatus::Blocked(reason)
}

fn skipped(reason: BlockReason) -> EntryResult {
    EntryResult::Skipped { reason }
}

fn result(outcome: &Outcome, i: usize) -> EntryResult {
    outcome.entries[i].result.clone()
}

#[test]
fn ready_entries_are_totalled_and_blocked_ones_are_not() {
    let disk = Disk::new().file("/r/a.bin");
    let mut p = plan(&["a.bin", "gone.bin"], Mode::Trash);
    p.entries[1].size = 999;
    let checked = disk.preview(&p, &disk.limits("/r", &[]));
    assert_eq!(statuses(&checked), vec![EntryStatus::Ready, blocked(BlockReason::Missing)]);
    assert_eq!(checked.total_bytes, 10, "a blocked entry contributes nothing");
    assert_eq!(checked.mode, Mode::Trash);
}

#[test]
fn a_descendant_of_another_entry_is_blocked_as_nested() {
    let disk = Disk::new().dir("/r/dir/inner");
    let p = batch(
        vec![entry("/r/dir", NodeKind::Dir, 100), entry("/r/dir/inner", NodeKind::Dir, 40)],
        Mode::Permanent,
    );
    let checked = disk.preview(&p, &disk.limits("/r", &[]));
    assert_eq!(checked.entries[1].status, blocked(BlockReason::Nested));
    assert_eq!(checked.total_bytes, 100, "the child's bytes are not counted twice");
}

#[test]
fn the_kind_recorded_in_the_preview_comes_from_the_disk() {
    let disk = Disk::new().dir("/r/a.bin");
    let p = plan(&["a.bin"], Mode::Trash); // planned as a file
    let checked = disk.preview(&p, &disk.limits("/r", &[]));
    assert_eq!(checked.entries[0].kind, NodeKind::Dir);
}

#[test]
fn the_reason_the_guards_gave_survives_into_the_preview() {
    let disk = Disk::new()
        .file("/r/not-a-dir")
        .dir("/r/real")
        .link("/r/link", "/r/real")
        .file("/r/keep.bin");
    let p = batch(
        vec![
            // No last component to delete.
            entry("/", NodeKind::File, 1),
            // The parent cannot be resolved.
            entry("/r/not-a-dir/below/x.bin", NodeKind::File, 2),
            // Nothing is there, spelled through a symlinked parent, so that the path the
            // guards examined and the one the plan carried can be told apart.
            entry("/r/link/gone.bin", NodeKind::File, 4),
            entry("/r/keep.bin", NodeKind::File, 8),
        ],
        Mode::Permanent,
    );
    let checked = disk.preview(&p, &disk.limits("/r", &[]));
    assert_eq!(
        statuses(&checked),
        vec![
            blocked(BlockReason::Malformed),
            blocked(BlockReason::Unreadable),
            blocked(BlockReason::Missing),
            EntryStatus::Ready,
        ]
    );
    assert_eq!(
        checked.entries[0].path, "/",
        "an entry the guards refused keeps the path the caller wrote"
    );
    assert_eq!(
        checked.entries[2].path, "/r/real/gone.bin",
        "an entry blocked after them reports the path they examined"
    );
    assert_eq!(checked.total_bytes, 8);
}

#[test]
fn the_mode_of_the_plan_is_the_mode_of_the_preview() {
    let disk = Disk::new().file("/r/a.bin");
    for mode in [Mode::Trash, Mode::Permanent] {
        assert_eq!(disk.preview(&plan(&["a.bin"], mode), &disk.limits("/r", &[])).mode, mode);
    }
}

#[test]
fn the_disk_is_asked_about_the_path_that_would_be_deleted() {
    let disk = Disk::new().dir("/r/target").link("/r/link", "/r/target");
    let p = plan(&["link/"], Mode::Trash);
    assert!(p.entries[0].path.ends_with('/'), "the plan carries the separator");
    let checked = disk.preview(&p, &disk.limits("/r", &[]));
    assert_eq!(checked.entries[0].path, "/r/link", "the guards stripped it");
    assert_eq!(checked.entries[0].kind, NodeKind::Symlink);
}

#[test]
fn an_entry_that_cannot_be_looked_at_is_not_called_gone() {
    let disk = Disk::new().file("/r/real/a.bin").link("/r/link", "/r/real");
    // The claimed kind is wrong on purpose: `a.bin` is a file.
    let p = batch(vec![entry("/r/link/a.bin", NodeKind::Dir, 10)], Mode::Trash);
    let mut look = disk.look_at("/r/link/a.bin");
    look.stat = Err(refused("/r/real/a.bin"));
    let checked = preview(&p, &disk.limits("/r", &[]), &vec![look]);
    assert_eq!(checked.entries[0].status, blocked(BlockReason::Unreadable));
    assert_eq!(checked.entries[0].path, "/r/real/a.bin", "the path it asked about");
    assert_eq!(
        checked.entries[0].kind,
        NodeKind::Dir,
        "the plan's unverified claim, not a guess of our own"
    );
    assert_eq!(checked.entries[0].size, 10, "and the plan's size");
    assert_eq!(checked.total_bytes, 0);
}

#[test]
fn a_path_the_port_refuses_is_malformed_not_unreadable() {
    let disk = Disk::new().file("/r/a.bin");
    let mut look = disk.look_at("/r/a.bin");
    look.stat = Err(rejected("/r/a.bin"));
    let p = plan(&["a.bin"], Mode::Trash);
    let checked = preview(&p, &disk.limits("/r", &[]), &vec![look]);
    assert_eq!(checked.entries[0].status, blocked(BlockReason::Malformed));
    assert_eq!(checked.total_bytes, 0);
}

#[test]
fn a_symlink_is_previewed_as_a_symlink() {
    let disk = Disk::new().dir("/r/target").link("/r/link", "/r/target");
    let checked = disk.preview(&plan(&["link"], Mode::Trash), &disk.limits("/r", &[]));
    assert_eq!(checked.entries[0].kind, NodeKind::Symlink);
    assert_eq!(checked.entries[0].status, EntryStatus::Ready);
}

#[test]
fn nesting_is_judged_on_the_paths_the_guards_returned() {
    let disk = Disk::new().dir("/r/real/inner").link("/r/link", "/r/real");
    let p = batch(
        vec![entry("/r/real", NodeKind::Dir, 100), entry("/r/link/inner", NodeKind::Dir, 40)],
        Mode::Trash,
    );
    let checked = disk.preview(&p, &disk.limits("/r", &[]));
    assert_eq!(checked.entries[1].path, "/r/real/inner", "the guards resolved the parent");
    assert_eq!(checked.entries[1].status, blocked(BlockReason::Nested));
    assert_eq!(checked.total_bytes, 100);
}

#[test]
fn another_case_of_one_name_is_not_counted_twice() {
    let mut disk = Disk::new().dir("/r/Data");
    disk.folded = true;
    let p = batch(
        vec![entry("/r/Data", NodeKind::Dir, 100), entry("/r/data", NodeKind::Dir, 100)],
        Mode::Trash,
    );
    let checked = disk.preview(&p, &disk.limits("/r", &[]));
    assert_eq!(statuses(&checked), vec![EntryStatus::Ready, blocked(BlockReason::Nested)]);
    assert_eq!(checked.total_bytes, 100, "one directory on disk, promised once");
}

#[test]
fn a_symlink_and_the_directory_it_points_at_are_two_entries() {
    let disk = Disk::new().dir("/r/target").link("/r/link", "/r/target");
    let p = batch(
        vec![entry("/r/link", NodeKind::Symlink, 10), entry("/r/target", NodeKind::Dir, 100)],
        Mode::Trash,
    );
    let checked = disk.preview(&p, &disk.limits("/r", &[]));
    assert_eq!(statuses(&checked), vec![EntryStatus::Ready, EntryStatus::Ready]);
    assert_eq!(checked.total_bytes, 110);
}

#[test]
fn one_entry_selected_twice_is_promised_once() {
    let disk = Disk::new().dir("/r/dir");
    let p = batch(
        vec![entry("/r/dir", NodeKind::Dir, 100), entry("/r/dir", NodeKind::Dir, 100)],
        Mode::Trash,
    );
    let checked = disk.preview(&p, &disk.limits("/r", &[]));
    assert_eq!(statuses(&checked), vec![EntryStatus::Ready, blocked(BlockReason::Nested)]);
    assert_eq!(checked.total_bytes, 100);
}

#[test]
fn a_blocked_ancestor_neither_nests_what_is_below_it_nor_moves_it() {
    // All three are directories on disk and all three are planned as something else, so
    // that the kinds below say where each value came from.
    let disk = Disk::new().dir("/r/dir/inner");
    let p = batch(
        vec![
            entry("/r", NodeKind::Symlink, 1_000),
            entry("/r/dir", NodeKind::File, 100),
            entry("/r/dir/inner", NodeKind::File, 40),
        ],
        Mode::Trash,
    );
    let checked = disk.preview(&p, &disk.limits("/r", &[]));
    assert_eq!(
        statuses(&checked),
        vec![
            blocked(BlockReason::IsRoot),
            EntryStatus::Ready,
            blocked(BlockReason::Nested),
        ]
    );
    let kinds: Vec<NodeKind> = checked.entries.iter().map(|e| e.kind).collect();
    assert_eq!(kinds, vec![NodeKind::Symlink, NodeKind::Dir, NodeKind::Dir]);
    assert_eq!(checked.total_bytes, 100);
}

#[test]
fn a_ready_entry_is_removed_and_its_bytes_are_freed() {
    let mut disk = Disk::new().file("/r/a.bin");
    let limits = disk.limits("/r", &[]);
    let checked = disk.preview(&plan(&["a.bin"], Mode::Trash), &limits);
    let ran = disk.execute(&checked, &limits, Between::Nothing);
    assert_eq!(ran.outcome.freed_bytes, 10);
    assert_eq!(result(&ran.outcome, 0), EntryResult::Removed { bytes: 10 });
    assert!(!disk.has("/r/a.bin"));
    assert_eq!(ran.outcome.at, started());
}

#[test]
fn an_entry_that_vanished_between_the_stages_does_not_stop_the_batch() {
    let mut disk = Disk::new().file("/r/a.bin").file("/r/b.bin");
    let limits = disk.limits("/r", &[]);
    let checked = disk.preview(&plan(&["a.bin", "b.bin"], Mode::Permanent), &limits);
    disk.remove("/r/a.bin").unwrap(); // vanishes between the stages
    let ran = disk.execute(&checked, &limits, Between::Nothing);
    assert_eq!(result(&ran.outcome, 0), skipped(BlockReason::Missing));
    assert_eq!(result(&ran.outcome, 1), EntryResult::Removed { bytes: 20 });
    assert_eq!(ran.outcome.freed_bytes, 20, "only what was really deleted");
}

#[test]
fn an_entry_whose_kind_changed_is_skipped() {
    let mut disk = Disk::new().file("/r/a.bin");
    let limits = disk.limits("/r", &[]);
    let checked = disk.preview(&plan(&["a.bin"], Mode::Permanent), &limits);
    disk.put("/r/a.bin", Thing::Dir); // same name, now a directory
    let ran = disk.execute(&checked, &limits, Between::Nothing);
    assert_eq!(result(&ran.outcome, 0), skipped(BlockReason::KindChanged));
    assert!(disk.has("/r/a.bin"), "the replacement is left alone");
    assert!(ran.done.is_empty());
}

#[test]
fn a_failing_deletion_is_reported_as_failed_not_skipped() {
    let mut disk = Disk::new().file("/r/a.bin").file("/r/b.bin");
    let limits = disk.limits("/r", &[]);
    let checked = disk.preview(&plan(&["a.bin", "b.bin"], Mode::Trash), &limits);
    let ran = disk.execute(&checked, &limits, Between::Failing("/r/a.bin".to_owned()));
    assert_eq!(
        result(&ran.outcome, 0),
        EntryResult::Failed { message: "/r/a.bin: not permitted".to_owned() }
    );
    assert_eq!(result(&ran.outcome, 1), EntryResult::Removed { bytes: 20 });
    assert!(disk.has("/r/a.bin"), "a failure leaves the entry alone");
    assert_eq!(ran.outcome.freed_bytes, 20);
}

#[test]
fn blocked_entries_are_reported_but_never_touched() {
    let mut disk = Disk::new().dir("/r");
    let limits = disk.limits("/r", &[]);
    let checked = disk.preview(&plan(&["gone.bin"], Mode::Trash), &limits);
    let ran = disk.execute(&checked, &limits, Between::Nothing);
    assert_eq!(ran.outcome.entries.len(), 1);
    assert_eq!(result(&ran.outcome, 0), skipped(BlockReason::Missing));
    assert_eq!(ran.outcome.freed_bytes, 0);
    assert!(ran.done.is_empty());
}

#[test]
fn a_forged_preview_is_still_judged_by_the_guards() {
    // Every row here claims to be ready, and every one of them is a path the guards refuse.
    let mut disk = Disk::new().file("/r/denied/keep.bin").file("/trash/keep.bin");
    let limits = disk.limits("/r", &["/r/denied"]);
    let mut entries = Vec::new();
    for (path, kind) in [
        ("/r/denied/keep.bin", NodeKind::File),
        ("/trash/keep.bin", NodeKind::File),
        ("/r", NodeKind::Dir),
    ] {
        entries.push(PreviewEntry {
            path: path.to_owned(),
            kind,
            size: 10,
            status: EntryStatus::Ready,
        });
    }
    let forged = Preview { entries, total_bytes: 30, mode: Mode::Permanent };
    let ran = disk.execute(&forged, &limits, Between::Nothing);
    let results: Vec<EntryResult> = (0..3).map(|i| result(&ran.outcome, i)).collect();
    assert_eq!(
        results,
        vec![
            skipped(BlockReason::Denylisted),
            skipped(BlockReason::OutsideRoots),
            skipped(BlockReason::IsRoot),
        ],
        "the reason the guards gave"
    );
    assert!(disk.has("/r/denied/keep.bin") && disk.has("/trash/keep.bin"));
    assert_eq!(ran.outcome.freed_bytes, 0);
}

#[test]
fn an_entry_the_preview_blocked_is_left_where_it_is() {
    let mut disk = Disk::new().file("/r/denied/keep.bin").file("/r/go.bin");
    let limits = disk.limits("/r", &["/r/denied"]);
    let p = batch(
        vec![
            entry("/r/denied/keep.bin", NodeKind::Symlink, 10),
            entry("/r/go.bin", NodeKind::File, 20),
        ],
        Mode::Permanent,
    );
    let checked = disk.preview(&p, &limits);
    let ran = disk.execute(&checked, &limits, Between::Nothing);
    assert_eq!(result(&ran.outcome, 0), skipped(BlockReason::Denylisted));
    assert!(disk.has("/r/denied/keep.bin"), "still there, untouched");
    assert_eq!(result(&ran.outcome, 1), EntryResult::Removed { bytes: 20 });
    assert!(!disk.has("/r/go.bin"));
    assert_eq!(ran.outcome.freed_bytes, 20);
    let kinds: Vec<NodeKind> = ran.outcome.entries.iter().map(|e| e.kind).collect();
    assert_eq!(
        kinds,
        vec![NodeKind::Symlink, NodeKind::File],
        "a blocked row carries the plan's claim; a deleted one carries what the disk said"
    );
}

/// An entry that is one thing in the preview and another when the batch runs.
fn assert_swapped_is_skipped(before: Thing, kind: NodeKind, after: Thing) {
    let mut disk = Disk::new().dir("/r/elsewhere");
    disk.put("/r/swapped", before);
    let limits = disk.limits("/r", &[]);
    let p = batch(vec![entry("/r/swapped", kind, 100)], Mode::Permanent);
    let checked = disk.preview(&p, &limits);
    assert_eq!(checked.entries[0].kind, kind);
    disk.put("/r/swapped", after);
    let ran = disk.execute(&checked, &limits, Between::Nothing);
    assert_eq!(result(&ran.outcome, 0), skipped(BlockReason::KindChanged));
    assert_eq!(
        ran.outcome.entries[0].kind, kind,
        "what the preview showed, not what took its place"
    );
    assert!(ran.done.is_empty());
    assert!(disk.has("/r/swapped"));
    assert_eq!(ran.outcome.freed_bytes, 0);
}

#[test]
fn a_symlink_that_became_a_directory_is_skipped() {
    assert_swapped_is_skipped(
        Thing::Link("/r/elsewhere".to_owned()),
        NodeKind::Symlink,
        Thing::Dir,
    );
}

#[test]
fn a_socket_that_became_a_directory_is_skipped() {
    assert_swapped_is_skipped(Thing::Socket, NodeKind::Other, Thing::Dir);
}

#[test]
fn a_directory_that_became_a_symlink_is_skipped() {
    assert_swapped_is_skipped(
        Thing::Dir,
        NodeKind::Dir,
        Thing::Link("/r/elsewhere".to_owned()),
    );
}

#[test]
fn a_file_that_became_a_symlink_is_skipped() {
    assert_swapped_is_skipped(
        Thing::File,
        NodeKind::File,
        Thing::Link("/r/elsewhere".to_owned()),
    );
}

#[test]
fn a_row_skipped_at_execution_time_keeps_the_kind_the_dialog_showed() {
    assert_swapped_is_skipped(Thing::File, NodeKind::File, Thing::Dir);
}

#[test]
fn an_entry_that_cannot_be_looked_at_when_the_batch_runs_is_not_called_gone() {
    let mut disk = Disk::new().file("/r/a.bin");
    let limits = disk.limits("/r", &[]);
    let checked = disk.preview(&plan(&["a.bin"], Mode::Permanent), &limits);
    let ran = disk.execute(&checked, &limits, Between::Stat(refused("/r/a.bin")));
    assert_eq!(result(&ran.outcome, 0), skipped(BlockReason::Unreadable));
    assert!(disk.has("/r/a.bin"));
    assert_eq!(ran.outcome.freed_bytes, 0);
}

#[test]
fn a_path_the_port_refuses_when_the_batch_runs_is_malformed_not_unreadable() {
    let mut disk = Disk::new().file("/r/a.bin");
    let limits = disk.limits("/r", &[]);
    let checked = disk.preview(&plan(&["a.bin"], Mode::Trash), &limits);
    let ran = disk.execute(&checked, &limits, Between::Stat(rejected("/r/a.bin")));
    assert_eq!(result(&ran.outcome, 0), skipped(BlockReason::Malformed));
    assert!(disk.has("/r/a.bin"));
    assert_eq!(ran.outcome.freed_bytes, 0);
}

#[test]
fn an_entry_that_vanishes_inside_the_deletion_is_skipped_not_failed() {
    let mut disk = Disk::new().file("/r/a.bin").file("/r/b.bin");
    let limits = disk.limits("/r", &[]);
    let checked = disk.preview(&plan(&["a.bin", "b.bin"], Mode::Trash), &limits);
    let ran = disk.execute(&checked, &limits, Between::Vanishing("/r/a.bin".to_owned()));
    assert_eq!(result(&ran.outcome, 0), skipped(BlockReason::Missing));
    assert_eq!(result(&ran.outcome, 1), EntryResult::Removed { bytes: 20 });
}

#[test]
fn an_entry_that_vanished_inside_the_deletion_frees_nothing() {
    let mut disk = Disk::new().file("/r/a.bin").file("/r/b.bin");
    let limits = disk.limits("/r", &[]);
    let checked = disk.preview(&plan(&["a.bin", "b.bin"], Mode::Trash), &limits);
    let ran = disk.execute(&checked, &limits, Between::Vanishing("/r/a.bin".to_owned()));
    assert_eq!(
        ran.outcome.freed_bytes, 20,
        "the bytes of the entry that really went, and only those"
    );
}

#[test]
fn the_stat_and_the_deletion_both_use_the_path_the_guards_returned_now() {
    let mut disk = Disk::new().file("/r/dir/a.bin");
    let limits = disk.limits("/r", &[]);
    let checked = disk.preview(&plan(&["dir/a.bin"], Mode::Permanent), &limits);
    assert_eq!(checked.entries[0].path, "/r/dir/a.bin");
    disk.remove("/r/dir").unwrap();
    let mut disk = disk.file("/r/other/a.bin").link("/r/dir", "/r/other");
    let ran = disk.execute(&checked, &limits, Between::Nothing);
    assert_eq!(ran.done, vec!["/r/other/a.bin".to_owned()]);
    assert_eq!(
        ran.outcome.entries[0].path, "/r/other/a.bin",
        "the row names what was deleted, not what the preview held"
    );
    assert!(!disk.has("/r/other/a.bin"));
}

#[test]
fn an_empty_preview_is_an_empty_outcome() {
    let mut disk = Disk::new().dir("/r");
    let limits = disk.limits("/r", &[]);
    let empty = Preview { entries: vec![], total_bytes: 0, mode: Mode::Permanent };
    let ran = disk.execute(&empty, &limits, Between::Nothing);
    assert!(ran.outcome.entries.is_empty());
    assert_eq!(ran.outcome.freed_bytes, 0);
    assert_eq!(ran.outcome.mode, Mode::Permanent);
    assert_eq!(ran.outcome.at, started());
}

#[test]
fn the_mode_of_the_preview_is_the_mode_of_the_outcome() {
    for mode in [Mode::Trash, Mode::Permanent] {
        let mut disk = Disk::new().file("/r/a.bin");
        let limits = disk.limits("/r", &[]);
        let checked = disk.preview(&plan(&["a.bin"], mode), &limits);
        let ran = disk.execute(&checked, &limits, Between::Nothing);
        assert_eq!(result(&ran.outcome, 0), EntryResult::Removed { bytes: 10 });
        assert_eq!(ran.outcome.mode, mode);
    }
}

#[test]
fn a_nested_entry_is_skipped_for_the_reason_the_preview_gave() {
    let mut disk = Disk::new().dir("/r/dir/inner");
    let limits = disk.limits("/r", &[]);
    let p = batch(
        vec![entry("/r/dir", NodeKind::Dir, 100), entry("/r/dir/inner", NodeKind::Dir, 40)],
        Mode::Trash,
    );
    let checked = disk.preview(&p, &limits);
    let ran = disk.execute(&checked, &limits, Between::Nothing);
    assert_eq!(result(&ran.outcome, 0), EntryResult::Removed { bytes: 100 });
    assert_eq!(result(&ran.outcome, 1), skipped(BlockReason::Nested));
    assert_eq!(ran.outcome.freed_bytes, 100, "one directory, counted once");
    assert!(!disk.has("/r/dir"), "the ancestor went, and the descendant with it");
}

#[test]
fn a_symlink_is_deleted_as_a_link_in_the_form_the_port_demands() {
    let mut disk = Disk::new().file("/r/target/inside.bin").link("/r/link", "/r/target");
    let limits = disk.limits("/r", &[]);
    let checked = disk.preview(&plan(&["link/"], Mode::Permanent), &limits);
    let ran = disk.execute(&checked, &limits, Between::Nothing);
    assert_eq!(ran.done, vec!["/r/link".to_owned()]);
    assert_eq!(result(&ran.outcome, 0), EntryResult::Removed { bytes: 10 });
    assert_eq!(ran.outcome.entries[0].kind, NodeKind::Symlink);
    assert!(!disk.has("/r/link"));
    assert!(disk.has("/r/target/inside.bin"), "the target of the link is untouched");
}

#[test]
fn the_port_is_asked_for_the_spelling_the_caller_wrote() {
    for asked in ["/r/Data", "/r/data"] {
        let mut disk = Disk::new().dir("/r/Data");
        disk.folded = true;
        let limits = disk.limits("/r", &[]);
        let checked = disk.preview(&batch(vec![entry(asked, NodeKind::Dir, 10)], Mode::Trash), &limits);
        let ran = disk.execute(&checked, &limits, Between::Nothing);
        assert_eq!(ran.done, vec![asked.to_owned()]);
        assert_eq!(ran.outcome.entries[0].path, asked);
        assert!(!disk.has("/r/Data"), "the directory really left");
    }
}

#[test]
fn a_total_never_passes_the_largest_number() {
    let disk = Disk::new().file("/r/a.bin").file("/r/b.bin");
    let p = batch(
        vec![
            entry("/r/a.bin", NodeKind::File, u64::MAX),
            entry("/r/b.bin", NodeKind::File, 7),
        ],
        Mode::Trash,
    );
    assert_eq!(disk.preview(&p, &disk.limits("/r", &[])).total_bytes, u64::MAX);
}
