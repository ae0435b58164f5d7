use std::collections::BTreeMap;
use std::path::{Component, Path};

use storage_monitor::action::engine::{EntryLook, SystemError, SystemErrorKind};
use storage_monitor::action::guards::{
    standard_denylist, standard_shields, Limits, Look, Place, Seen, Trouble,
};
use storage_monitor::action::model::{BlockReason, EntryResult, EntryStatus, Mode, Timestamp};
use storage_monitor::cleanup::engine::{
    plan_all, plan_steps, preview, reversible, screen, targets, Held,
};
use storage_monitor::cleanup::model::{
    CleanupOutcome, CleanupPreview, EffectView, Progress, Request, StepView,
};
use storage_monitor::cleanup::run::{
    conclude, end_delete, end_run, execute, needs_look, not_run, progress_at, run_steps,
    start_step, step_invocation, tally, StepRun, StepStart, STEP_TIMEOUT,
};
use storage_monitor::module::item::{
    ActionOption, ActionSpec, Item, Level, Reason, Size, Verdict,
};
use storage_monitor::module::step::{Command, Effect, Step, Target};
use storage_monitor::module::{Module, Output, PlanLine, Plans};
use storage_monitor::scan::NodeKind;

/// What is at one path of a [`Disk`].
enum Thing {
    Dir,
    File,
    Link(String),
}

/// A file system as the rules see it: what can be asked of a path, and the answers.
struct Disk {
    things: BTreeMap<String, Thing>,
    /// One name in two spellings opens the same entry.
    folded: bool,
}

impl Disk {
    fn new() -> Disk {
        Disk { things: BTreeMap::new(), folded: false }
    }

    fn put(&mut self, path: &str, thing: Thing) {
        let mut above = String::new();
        let names: Vec<&str> = path.split('/').filter(|name| !name.is_empty()).collect();
        for name in &names[..names.len().saturating_sub(1)] {
            above.push('/');
            above.push_str(name);
            self.things.entry(above.clone()).or_insert(Thing::Dir);
        }
        self.things.insert(path.to_owned(), thing);
    }

    fn dir(mut self, path: &str) -> Disk {
        self.put(path, Thing::Dir);
        self
    }

    fn file(mut self, path: &str) -> Disk {
        self.put(path, Thing::File);
        self
    }

    fn link(mut self, path: &str, target: &str) -> Disk {
        self.put(path, Thing::Link(target.to_owned()));
        self
    }

    /// The path under which the disk keeps what `path` names there, link or not.
    fn spelled(&self, path: &str) -> Option<String> {
        if self.things.contains_key(path) {
            return Some(path.to_owned());
        }
        if !self.folded {
            return None;
        }
        let wanted = path.to_lowercase();
        self.things.keys().find(|known| known.to_lowercase() == wanted).cloned()
    }

    fn entry(&self, dir: &str, name: &str) -> Result<String, Trouble> {
        if dir != "/" {
            match self.things.get(dir) {
                Some(Thing::Dir) => {}
                _ => return Err(Trouble::Other),
            }
        }
        let path = if dir == "/" { format!("/{name}") } else { format!("{dir}/{name}") };
        self.spelled(&path).ok_or(Trouble::NotFound)
    }

    /// The whole path resolved, with every link followed.
    fn resolve(&self, path: &str) -> Result<String, Trouble> {
        if path.is_empty() {
            return Err(Trouble::NotFound);
        }
        let mut at = "/work".to_owned();
        for component in Path::new(path).components() {
            match component {
                Component::RootDir => at = "/".to_owned(),
                Component::ParentDir => {
                    let up = at.rfind('/').unwrap_or(0);
                    at.truncate(up.max(1));
                }
                Component::Normal(name) => {
                    let found = self.entry(&at, name.to_str().unwrap())?;
                    at = match &self.things[&found] {
                        Thing::Link(target) => self.resolve(target)?,
                        _ => found,
                    };
                }
                _ => {}
            }
        }
        Ok(at)
    }

    fn place(&self, path: &str) -> Place {
        let parent = Path::new(path).parent().and_then(|parent| parent.to_str());
        Place {
            path: path.to_owned(),
            parent: parent.and_then(|parent| self.resolve(parent).ok()),
            resolved: self.resolve(path).ok(),
        }
    }

    fn look(&self, path: &str) -> Look {
        let parts = (Path::new(path).parent(), Path::new(path).file_name());
        let (Some(parent), Some(name)) = parts else {
            return Look { parent: Err(Trouble::Other), seen: Seen::Unseen(Trouble::Other) };
        };
        let parent = self.resolve(parent.to_str().unwrap());
        let seen = match &parent {
            Err(trouble) => Seen::Unseen(*trouble),
            Ok(parent) => match self.entry(parent, name.to_str().unwrap()) {
                Err(trouble) => Seen::Unseen(trouble),
                Ok(found) => match &self.things[&found] {
                    Thing::Link(_) => Seen::Link,
                    _ => Seen::Entry { resolved: Some(found) },
                },
            },
        };
        Look { parent, seen }
    }

    /// The kind of the entry itself, link or not.
    fn stat(&self, path: &str) -> Result<NodeKind, SystemError> {
        match self.spelled(path) {
            None => Err(missing(path)),
            Some(found) => Ok(match &self.things[&found] {
                Thing::Dir => NodeKind::Dir,
                Thing::File => NodeKind::File,
                Thing::Link(_) => NodeKind::Symlink,
            }),
        }
    }

    /// What the engine is told about a path: the guards' look, and a stat of the path that
    /// they would hand on.
    fn look_at(&self, path: &str) -> EntryLook {
        let look = self.look(path);
        let name = Path::new(path).file_name().and_then(|name| name.to_str());
        let stat = match (&look.parent, name) {
            (Ok(parent), Some(name)) => self.stat(&format!("{parent}/{name}")),
            _ => Err(missing(path)),
        };
        EntryLook { look, stat }
    }

    /// Deletes an entry with everything below it.
    fn remove(&mut self, path: &str) -> Result<(), SystemError> {
        match self.spelled(path) {
            None => Err(missing(path)),
            Some(found) => {
                let below = format!("{found}/");
                self.things.retain(|known, _| *known != found && !known.starts_with(&below));
                Ok(())
            }
        }
    }

    fn has(&self, path: &str) -> bool {
        self.things.contains_key(path)
    }

    fn standard(&self, home: &str) -> Limits {
        let mut known = Vec::new();
        for list in [standard_denylist(Some(home)), standard_shields(Some(home))] {
            known.extend(list.iter().map(|path| self.place(path)));
        }
        Limits::for_scan_root(self.place(home), Some(home), &known)
    }
}

fn missing(path: &str) -> SystemError {
    SystemError { kind: SystemErrorKind::Missing, message: format!("{path} no longer exists") }
}

/// What a scripted command answers.
struct Reply {
    argv: Vec<String>,
    answer: Result<Output, SystemError>,
    /// What the command takes with it.
    removes: Option<String>,
}

/// A machine: a disk, the tools on it, and what they answer.
struct Sys {
    disk: Disk,
    installed: Vec<String>,
    replies: Vec<Reply>,
    ran: Vec<Vec<String>>,
    /// Cannot be deleted.
    failing: Option<String>,
    /// Once the first is deleted, the second goes too.
    meddling: Option<(String, String)>,
}

/// What a batch came to.
struct Batch {
    outcome: CleanupOutcome,
    progress: Vec<Progress>,
}

impl Sys {
    fn new(disk: Disk) -> Sys {
        Sys {
            disk: disk.dir("/h"),
            installed: Vec::new(),
            replies: Vec::new(),
            ran: Vec::new(),
            failing: None,
            meddling: None,
        }
    }

    fn install(&mut self, tool: &str) {
        self.installed.push(tool.to_owned());
    }

    fn script(&mut self, argv: &[&str], answer: Result<Output, SystemError>) {
        self.replies.push(Reply { argv: words(argv), answer, removes: None });
    }

    fn delete(&mut self, path: &str) -> Result<(), SystemError> {
        if self.failing.as_deref() == Some(path) {
            self.failing = None;
            let message = format!("{path}: not permitted");
            return Err(SystemError { kind: SystemErrorKind::Other, message });
        }
        let done = self.disk.remove(path);
        if let Some((when, gone)) = &self.meddling {
            if when == path {
                self.disk.remove(gone).unwrap();
            }
        }
        done
    }

    fn run(&mut self, command: &Command) -> Option<Result<Output, SystemError>> {
        if !self.installed.contains(&command.tool) {
            return None;
        }
        let given = step_invocation(command, format!("/bin/{}", command.tool));
        assert_eq!(given.timeout, STEP_TIMEOUT);
        assert_eq!(given.args, command.args);
        self.ran.push(command.argv());
        let found = self.replies.iter().find(|reply| reply.argv == command.argv());
        let Some(reply) = found else {
            return Some(Ok(ok()));
        };
        if let Some(path) = &reply.removes {
            self.disk.remove(path).unwrap();
        }
        Some(reply.answer.clone())
    }

    fn looks(&self, held: &Held<Plans>, requests: &[Request], mode: Mode) -> Vec<Vec<EntryLook>> {
        let mut all = Vec::new();
        for request in requests {
            let steps = plan_steps(request, held, mode);
            let found = targets(&steps);
            all.push(found.iter().map(|target| self.disk.look_at(&target.0.path)).collect());
        }
        all
    }

    fn preview(&self, module: &Scripted, requests: &[Request], mode: Mode) -> CleanupPreview {
        let held = Held::new(&vec![(&module.plans, &module.items)]);
        let looks = self.looks(&held, requests, mode);
        preview(&requests.to_vec(), &held, &self.disk.standard("/h"), &looks, mode)
    }

    /// Plans the requests and runs what is ready, step by step, each judged on what the
    /// disk says by then.
    fn execute(&mut self, module: &Scripted, requests: &[Request], mode: Mode) -> Batch {
        let requests = requests.to_vec();
        let held = Held::new(&vec![(&module.plans, &module.items)]);
        let limits = self.disk.standard("/h");
        let looks = self.looks(&held, &requests, mode);
        let planned = plan_all(&requests, &held, &limits, &looks, mode);
        let mut entries = Vec::new();
        let mut progress = Vec::new();
        let mut runs = Vec::new();
        for (done, entry) in planned.iter().enumerate() {
            progress.push(progress_at(&planned, done));
            let mut steps = Vec::new();
            let ran = match entry.status {
                EntryStatus::Blocked(reason) => not_run(reason),
                EntryStatus::Ready => {
                    let total = entry.steps.len();
                    let mut stopped = false;
                    for (index, step) in entry.steps.iter().enumerate() {
                        let mut run = StepRun {
                            look: self.disk.look_at("/h/nothing"),
                            deleted: Ok(()),
                            ran: None,
                        };
                        if needs_look(step) {
                            let one = vec![step.clone()];
                            run.look = self.disk.look_at(&targets(&one)[0].0.path);
                        }
                        if !stopped {
                            let start = start_step(step, mode, index, total, &limits, &run.look);
                            stopped = match (start, step) {
                                (StepStart::Refused(_), _) => true,
                                (StepStart::Delete { path, mode: given }, _) => {
                                    assert_eq!(given, mode, "the mode of the batch");
                                    run.deleted = self.delete(&path);
                                    end_delete(&run.deleted, index, total).is_some()
                                }
                                (StepStart::Run { .. }, Step::Run { command, .. }) => {
                                    run.ran = self.run(command);
                                    end_run(command, &run.ran, index, total).is_some()
                                }
                                _ => unreachable!(),
                            };
                        }
                        steps.push(run);
                    }
                    run_steps(entry, mode, &limits, &steps)
                }
            };
            entries.push(conclude(entry, mode, ran));
            runs.push(steps);
        }
        progress.push(progress_at(&planned, planned.len()));
        let outcome = tally(entries, started(), mode);
        let whole = execute(&requests, &held, &limits, &looks, &runs, mode, started());
        assert_eq!(whole, (outcome.clone(), progress.clone()));
        Batch { outcome, progress }
    }
}

fn started() -> Timestamp {
    Timestamp { secs: 1_700_000_000, nanos: 0 }
}

fn output(status: i32, stderr: &str) -> Output {
    Output { status: Some(status), stdout: Vec::new(), stderr: stderr.as_bytes().to_vec() }
}

fn ok() -> Output {
    output(0, "")
}

fn words(words: &[&str]) -> Vec<String> {
    words.iter().map(|word| (*word).to_owned()).collect()
}

/// A module whose items and plans a test writes out.
struct Scripted {
    items: Vec<Item>,
    plans: Plans,
}

impl Scripted {
    fn new() -> Scripted {
        Scripted { items: Vec::new(), plans: Plans { lines: Vec::new() } }
    }

    fn with(mut self, item: Item, trash: Vec<Step>, permanent: Vec<Step>) -> Scripted {
        for (mode, steps) in [(Mode::Trash, trash), (Mode::Permanent, permanent)] {
            for options in [words(&[]), words(&["force"]), words(&["extra"])] {
                self.plans.lines.push(PlanLine {
                    item: item.id.clone(),
                    action: "go".to_owned(),
                    options,
                    mode,
                    steps: steps.clone(),
                });
            }
        }
        self.items.push(item);
        self
    }

    /// The same steps in both modes.
    fn both(self, item: Item, steps: Vec<Step>) -> Scripted {
        self.with(item, steps.clone(), steps)
    }
}

/// An item with one action, `go`, carrying a force option and an ordinary one.
fn item(name: &str, level: Level, size: u64, path: Option<&str>) -> Item {
    Item {
        id: format!("test:{name}"),
        module: "test".to_owned(),
        kind: "thing".to_owned(),
        title: name.to_owned(),
        subtitle: None,
        path: path.map(str::to_owned),
        size: Size::exact(size),
        last_used: None,
        verdict: Verdict::new(level, vec![Reason::new("because", "Because")]),
        facts: Vec::new(),
        actions: vec![ActionSpec {
            id: "go".to_owned(),
            label: "Go".to_owned(),
            estimated_free: size,
            options: vec![
                ActionOption {
                    id: "force".to_owned(),
                    label: "Force".to_owned(),
                    default: false,
                    force: true,
                },
                ActionOption {
                    id: "extra".to_owned(),
                    label: "Extra".to_owned(),
                    default: false,
                    force: false,
                },
            ],
        }],
    }
}

fn request(name: &str) -> Request {
    Request { item: format!("test:{name}"), action: "go".to_owned(), options: Vec::new() }
}

fn with_option(name: &str, option: &str) -> Request {
    Request { options: vec![option.to_owned()], ..request(name) }
}

fn delete_step(path: &str, kind: NodeKind) -> Step {
    Step::Delete(Target::new(path, kind))
}

fn run_step(argv: &[&str], effect: Effect) -> Step {
    Step::Run { command: Command::new(argv[0]).args(&argv[1..].to_vec()), effect }
}

fn removes(path: &str) -> Step {
    run_step(&["rm", path], Effect::Removes(Target::new(path, NodeKind::File)))
}

fn status(preview: &CleanupPreview, index: usize) -> EntryStatus {
    preview.entries[index].status
}

fn blocked(reason: BlockReason) -> EntryStatus {
    EntryStatus::Blocked(reason)
}

fn skipped(reason: BlockReason) -> EntryResult {
    EntryResult::Skipped { reason }
}

fn failed(message: &str) -> EntryResult {
    EntryResult::Failed { message: message.to_owned() }
}

#[test]
fn a_ready_entry_lists_its_steps_and_its_size() {
    let sys = Sys::new(Disk::new().file("/h/cache/inside.bin"));
    let module = Scripted::new().with(
        item("cache", Level::Safe, 40, Some("/h/cache")),
        vec![
            delete_step("/h/cache", NodeKind::Dir),
            run_step(&["touch", "/h/.done"], Effect::Housekeeping),
        ],
        vec![delete_step("/h/cache", NodeKind::Dir)],
    );
    let trash = sys.preview(&module, &[request("cache")], Mode::Trash);
    let entry = &trash.entries[0];
    assert_eq!(entry.status, EntryStatus::Ready);
    assert_eq!(entry.title, "cache");
    assert_eq!(entry.action, "Go");
    assert_eq!(entry.size, 40);
    assert_eq!(
        entry.steps,
        vec![
            StepView::Trash { path: "/h/cache".to_owned() },
            StepView::Run {
                command: "touch /h/.done".to_owned(),
                effect: EffectView::Housekeeping,
                path: None,
            },
        ]
    );
    assert_eq!(trash.total_bytes, 40);
    let permanent = sys.preview(&module, &[request("cache")], Mode::Permanent);
    assert_eq!(
        permanent.entries[0].steps,
        vec![StepView::Delete { path: "/h/cache".to_owned() }]
    );
}

#[test]
fn an_unknown_item_is_missing() {
    let sys = Sys::new(Disk::new());
    let preview = sys.preview(&Scripted::new(), &[request("gone")], Mode::Trash);
    assert_eq!(status(&preview, 0), blocked(BlockReason::Missing));
    // Nothing is known about it but what was asked.
    assert_eq!(preview.entries[0].title, "test:gone");
    assert_eq!(preview.entries[0].module, "");
    assert!(preview.entries[0].steps.is_empty());
}

/// One folder, `/h/<name>`, with one item that deletes it.
fn folder(name: &str, level: Level, size: u64) -> (Sys, Scripted) {
    let path = format!("/h/{name}");
    let sys = Sys::new(Disk::new().file(&format!("{path}/inside.bin")));
    let module = Scripted::new()
        .both(item(name, level, size, Some(&path)), vec![delete_step(&path, NodeKind::Dir)]);
    (sys, module)
}

#[test]
fn an_action_the_item_does_not_offer_is_kind_changed() {
    let (sys, module) = folder("a", Level::Safe, 1);
    let other = Request { action: "remove".to_owned(), ..request("a") };
    let preview = sys.preview(&module, &[other], Mode::Trash);
    assert_eq!(status(&preview, 0), blocked(BlockReason::KindChanged));
    assert_eq!(preview.entries[0].action, "remove");
}

#[test]
fn an_option_the_action_does_not_have_is_kind_changed() {
    let (sys, module) = folder("a", Level::Safe, 1);
    let preview = sys.preview(&module, &[with_option("a", "branch")], Mode::Trash);
    assert_eq!(status(&preview, 0), blocked(BlockReason::KindChanged));
}

#[test]
fn a_keep_item_is_kept_without_its_force_option() {
    let (sys, module) = folder("k", Level::Keep, 1);
    let preview = sys.preview(&module, &[request("k")], Mode::Trash);
    assert_eq!(status(&preview, 0), blocked(BlockReason::Kept));
    // An option that is on but does not force is not a force option.
    let preview = sys.preview(&module, &[with_option("k", "extra")], Mode::Trash);
    assert_eq!(status(&preview, 0), blocked(BlockReason::Kept));
    assert_eq!(preview.total_bytes, 0);
}

#[test]
fn a_keep_item_is_ready_with_its_force_option() {
    let (sys, module) = folder("k", Level::Keep, 5);
    let preview = sys.preview(&module, &[with_option("k", "force")], Mode::Trash);
    assert_eq!(status(&preview, 0), EntryStatus::Ready);
    assert_eq!(preview.total_bytes, 5);
}

#[test]
fn an_empty_plan_is_malformed() {
    let sys = Sys::new(Disk::new());
    let module = Scripted::new().both(item("a", Level::Safe, 1, None), Vec::new());
    let preview = sys.preview(&module, &[request("a")], Mode::Trash);
    assert_eq!(status(&preview, 0), blocked(BlockReason::Malformed));
}

#[test]
fn a_target_outside_the_home_folder_is_outside_roots() {
    let sys = Sys::new(Disk::new().file("/elsewhere/x"));
    let module = Scripted::new()
        .both(
            item("deleted", Level::Safe, 1, None),
            vec![delete_step("/elsewhere/x", NodeKind::File)],
        )
        .both(item("removed", Level::Safe, 1, None), vec![removes("/elsewhere/x")]);
    let requests = [request("deleted"), request("removed")];
    let preview = sys.preview(&module, &requests, Mode::Permanent);
    assert_eq!(status(&preview, 0), blocked(BlockReason::OutsideRoots));
    assert_eq!(status(&preview, 1), blocked(BlockReason::OutsideRoots));
}

#[test]
fn a_target_that_is_gone_is_missing() {
    let sys = Sys::new(Disk::new());
    let module = Scripted::new().both(
        item("a", Level::Safe, 1, Some("/h/gone")),
        vec![delete_step("/h/gone", NodeKind::Dir)],
    );
    let preview = sys.preview(&module, &[request("a")], Mode::Trash);
    assert_eq!(status(&preview, 0), blocked(BlockReason::Missing));
}

#[test]
fn a_target_of_another_kind_is_kind_changed() {
    let sys = Sys::new(Disk::new().file("/h/was-a-folder"));
    let module = Scripted::new().both(
        item("a", Level::Safe, 1, Some("/h/was-a-folder")),
        vec![delete_step("/h/was-a-folder", NodeKind::Dir)],
    );
    let preview = sys.preview(&module, &[request("a")], Mode::Trash);
    assert_eq!(status(&preview, 0), blocked(BlockReason::KindChanged));
}

#[test]
fn a_removes_target_in_another_spelling_is_malformed() {
    let sys = Sys::new(Disk::new().file("/h/real/x.object").link("/h/link", "/h/real"));
    let module = Scripted::new()
        .both(item("run", Level::Safe, 1, None), vec![removes("/h/link/x.object")])
        // What is deleted is what the guards resolved, so a `Delete` in that spelling is
        // fine: the rule is about commands alone.
        .both(
            item("port", Level::Safe, 1, None),
            vec![delete_step("/h/link/x.object", NodeKind::File)],
        );
    let preview = sys.preview(&module, &[request("run"), request("port")], Mode::Trash);
    assert_eq!(status(&preview, 0), blocked(BlockReason::Malformed));
    assert_eq!(status(&preview, 1), EntryStatus::Ready);
}

#[test]
fn a_target_inside_another_entrys_target_is_nested() {
    let sys = Sys::new(Disk::new().dir("/h/outer/inner"));
    let module = Scripted::new()
        .both(
            item("inner", Level::Safe, 1, None),
            vec![delete_step("/h/outer/inner", NodeKind::Dir)],
        )
        .both(
            item("outer", Level::Safe, 2, None),
            vec![delete_step("/h/outer", NodeKind::Dir)],
        );
    let preview = sys.preview(&module, &[request("inner"), request("outer")], Mode::Trash);
    assert_eq!(status(&preview, 0), blocked(BlockReason::Nested));
    assert_eq!(status(&preview, 1), EntryStatus::Ready);
    assert_eq!(preview.total_bytes, 2);
}

#[test]
fn two_targets_of_one_entry_do_not_block_it() {
    let sys = Sys::new(Disk::new().file("/h/outer/inside.bin"));
    let module = Scripted::new().both(
        item("a", Level::Safe, 1, None),
        vec![removes("/h/outer/inside.bin"), delete_step("/h/outer", NodeKind::Dir)],
    );
    let preview = sys.preview(&module, &[request("a")], Mode::Trash);
    assert_eq!(status(&preview, 0), EntryStatus::Ready);
}

#[test]
fn a_blocked_entry_cannot_swallow_the_one_below_it() {
    let sys = Sys::new(Disk::new().dir("/h/outer/inner"));
    let module = Scripted::new()
        .both(
            item("outer", Level::Keep, 2, None),
            vec![delete_step("/h/outer", NodeKind::Dir)],
        )
        .both(
            item("inner", Level::Safe, 1, None),
            vec![delete_step("/h/outer/inner", NodeKind::Dir)],
        );
    let preview = sys.preview(&module, &[request("outer"), request("inner")], Mode::Trash);
    assert_eq!(status(&preview, 0), blocked(BlockReason::Kept));
    assert_eq!(status(&preview, 1), EntryStatus::Ready);
}

#[test]
fn reversibility_follows_the_steps_and_the_mode() {
    let delete = delete_step("/h/a", NodeKind::Dir);
    let housekeeping = run_step(&["touch", "/h/x"], Effect::Housekeeping);
    let destroys = run_step(&["docker", "image", "rm", "x"], Effect::Destroys);
    let removes = run_step(
        &["rm", "/h/a"],
        Effect::Removes(Target::new("/h/a", NodeKind::Dir)),
    );
    assert!(reversible(&vec![delete.clone(), housekeeping.clone()], Mode::Trash));
    assert!(!reversible(&vec![delete.clone(), housekeeping], Mode::Permanent));
    assert!(!reversible(&vec![delete.clone(), destroys.clone()], Mode::Trash));
    assert!(!reversible(&vec![destroys], Mode::Trash));
    assert!(!reversible(&vec![removes], Mode::Trash));
}

#[test]
fn an_entry_reports_whether_the_trash_can_undo_it() {
    let sys = Sys::new(Disk::new().dir("/h/folder").file("/h/a.object"));
    let module = Scripted::new()
        .both(
            item("folder", Level::Safe, 1, None),
            vec![delete_step("/h/folder", NodeKind::Dir)],
        )
        .both(item("object", Level::Safe, 1, None), vec![removes("/h/a.object")]);
    let requests = [request("folder"), request("object")];
    let trash = sys.preview(&module, &requests, Mode::Trash);
    assert!(trash.entries[0].reversible);
    assert!(!trash.entries[1].reversible);
    let permanent = sys.preview(&module, &requests, Mode::Permanent);
    assert!(!permanent.entries[0].reversible);
}

#[test]
fn the_first_rule_that_applies_decides() {
    // Keep without force, and a target that is not there: the verdict comes first.
    let sys = Sys::new(Disk::new());
    let module = Scripted::new()
        .both(item("k", Level::Keep, 1, None), vec![delete_step("/h/gone", NodeKind::Dir)]);
    let preview = sys.preview(&module, &[request("k")], Mode::Trash);
    assert_eq!(status(&preview, 0), blocked(BlockReason::Kept));
}

#[test]
fn the_preview_touches_nothing() {
    let mut sys = Sys::new(Disk::new().dir("/h/a"));
    sys.install("touch");
    let module = Scripted::new().both(
        item("a", Level::Safe, 1, None),
        vec![
            delete_step("/h/a", NodeKind::Dir),
            run_step(&["touch", "/h/x"], Effect::Housekeeping),
        ],
    );
    sys.preview(&module, &[request("a")], Mode::Permanent);
    assert!(sys.disk.has("/h/a"));
    assert!(sys.ran.is_empty());
}

#[test]
fn every_step_runs_in_order() {
    let mut sys = Sys::new(Disk::new().file("/h/cache/inside.bin"));
    sys.install("touch");
    let module = Scripted::new().both(
        item("cache", Level::Safe, 40, Some("/h/cache")),
        vec![
            delete_step("/h/cache", NodeKind::Dir),
            run_step(&["touch", "/h/.done"], Effect::Housekeeping),
        ],
    );
    let ran = sys.execute(&module, &[request("cache")], Mode::Trash);
    let entry = &ran.outcome.entries[0];
    assert_eq!(entry.result, EntryResult::Removed { bytes: 40 });
    assert!(!sys.disk.has("/h/cache"));
    assert_eq!(entry.commands, vec![words(&["touch", "/h/.done"])]);
    assert_eq!(entry.targets, words(&["/h/cache"]));
    assert_eq!(entry.path.as_deref(), Some("/h/cache"));
    assert_eq!(entry.kind, Some(NodeKind::Dir));
    assert_eq!(entry.mode, Mode::Trash);
    assert_eq!(ran.outcome.freed_bytes, 40);
}

/// Two folders, each with an item of its own, or one item that deletes both.
fn two_folders(names: [&str; 2]) -> (Sys, Scripted) {
    let mut disk = Disk::new();
    let mut module = Scripted::new();
    let mut size = 0;
    for name in names {
        let path = format!("/h/{name}");
        size += 1;
        disk = disk.dir(&path);
        module =
            module.both(item(name, Level::Safe, size, None), vec![delete_step(&path, NodeKind::Dir)]);
    }
    (Sys::new(disk), module)
}

#[test]
fn a_failed_step_ends_its_entry_not_the_batch() {
    let (mut sys, module) = two_folders(["first", "second"]);
    sys.failing = Some("/h/first".to_owned());
    let requests = [request("first"), request("second")];
    let ran = sys.execute(&module, &requests, Mode::Permanent);
    assert!(matches!(ran.outcome.entries[0].result, EntryResult::Failed { .. }));
    assert_eq!(ran.outcome.entries[1].result, EntryResult::Removed { bytes: 2 });
    assert!(sys.disk.has("/h/first") && !sys.disk.has("/h/second"));
    assert_eq!(ran.outcome.freed_bytes, 2);
}

#[test]
fn a_refusal_before_the_first_step_is_a_skip() {
    let mut sys = Sys::new(Disk::new().dir("/h/a"));
    sys.install("touch");
    let module = Scripted::new().both(
        item("a", Level::Safe, 1, None),
        vec![
            delete_step("/h/a", NodeKind::Dir),
            run_step(&["touch", "/h/x"], Effect::Housekeeping),
        ],
    );
    // Previewed while it was there; gone before the batch reaches it.
    let preview = sys.preview(&module, &[request("a")], Mode::Trash);
    assert_eq!(status(&preview, 0), EntryStatus::Ready);
    sys.disk.remove("/h/a").unwrap();
    let ran = sys.execute(&module, &[request("a")], Mode::Trash);
    assert_eq!(ran.outcome.entries[0].result, skipped(BlockReason::Missing));
    assert!(sys.ran.is_empty(), "nothing after the refusal ran");
}

#[test]
fn a_target_gone_between_the_plan_and_its_step_is_a_skip() {
    // The first entry takes the second one's target with it after both were planned.
    let (mut sys, module) = two_folders(["first", "second"]);
    sys.meddling = Some(("/h/first".to_owned(), "/h/second".to_owned()));
    let requests = [request("first"), request("second")];
    let ran = sys.execute(&module, &requests, Mode::Permanent);
    assert_eq!(ran.outcome.entries[0].result, EntryResult::Removed { bytes: 1 });
    assert_eq!(ran.outcome.entries[1].result, skipped(BlockReason::Missing));
    assert!(ran.outcome.entries[1].targets.is_empty());
}

#[test]
fn a_refusal_after_a_step_ran_is_a_failure() {
    let mut sys = Sys::new(Disk::new().dir("/h/first").dir("/h/second"));
    let module = Scripted::new().both(
        item("a", Level::Safe, 1, None),
        vec![
            delete_step("/h/first", NodeKind::Dir),
            delete_step("/h/second", NodeKind::Dir),
        ],
    );
    // The second target goes between the plan and its step; the first step already ran.
    sys.meddling = Some(("/h/first".to_owned(), "/h/second".to_owned()));
    let ran = sys.execute(&module, &[request("a")], Mode::Permanent);
    assert_eq!(
        ran.outcome.entries[0].result,
        failed("step 2 of 2, its target is no longer there")
    );
    assert_eq!(ran.outcome.freed_bytes, 0, "a lower bound");
}

/// An item whose plan is one command of `docker`.
fn image() -> Scripted {
    Scripted::new().both(
        item("img", Level::Safe, 7, None),
        vec![run_step(&["docker", "image", "rm", "abc"], Effect::Destroys)],
    )
}

#[test]
fn a_non_zero_exit_fails_the_entry_with_the_end_of_stderr() {
    let mut sys = Sys::new(Disk::new());
    sys.install("docker");
    sys.script(
        &["docker", "image", "rm", "abc"],
        Ok(output(1, "noise\nError: image is in use\n")),
    );
    let ran = sys.execute(&image(), &[request("img")], Mode::Trash);
    assert_eq!(
        ran.outcome.entries[0].result,
        failed("`docker image rm abc`: exited with 1: noise / Error: image is in use")
    );
    assert_eq!(
        ran.outcome.entries[0].commands,
        vec![words(&["docker", "image", "rm", "abc"])]
    );
}

#[test]
fn a_missing_tool_fails_the_entry_and_runs_nothing() {
    let mut sys = Sys::new(Disk::new());
    let ran = sys.execute(&image(), &[request("img")], Mode::Trash);
    assert_eq!(
        ran.outcome.entries[0].result,
        failed("`docker image rm abc`: `docker` is not installed")
    );
    assert!(ran.outcome.entries[0].commands.is_empty());
    assert!(sys.ran.is_empty());
}

#[test]
fn a_port_error_fails_the_entry() {
    let mut sys = Sys::new(Disk::new());
    sys.install("docker");
    let message = "docker did not finish within 600 s".to_owned();
    sys.script(
        &["docker", "image", "rm", "abc"],
        Err(SystemError { kind: SystemErrorKind::Other, message }),
    );
    let ran = sys.execute(&image(), &[request("img")], Mode::Trash);
    assert_eq!(
        ran.outcome.entries[0].result,
        failed("`docker image rm abc`: docker did not finish within 600 s")
    );
}

#[test]
fn a_later_command_that_fails_says_which_step_it_was() {
    let mut sys = Sys::new(Disk::new().dir("/h/a"));
    let module = Scripted::new().both(
        item("a", Level::Safe, 7, None),
        vec![
            delete_step("/h/a", NodeKind::Dir),
            run_step(&["git", "worktree", "prune"], Effect::Housekeeping),
        ],
    );
    let ran = sys.execute(&module, &[request("a")], Mode::Trash);
    assert_eq!(
        ran.outcome.entries[0].result,
        failed("step 2 of 2, `git worktree prune`: `git` is not installed")
    );
    assert_eq!(ran.outcome.entries[0].targets, words(&["/h/a"]));
}

#[test]
fn a_removes_target_is_revalidated_before_the_command() {
    let mut sys = Sys::new(Disk::new().file("/h/a.object"));
    sys.install("rm");
    let module =
        Scripted::new().both(item("a", Level::Safe, 1, None), vec![removes("/h/a.object")]);
    let preview = sys.preview(&module, &[request("a")], Mode::Trash);
    assert_eq!(status(&preview, 0), EntryStatus::Ready);
    // A folder where the module saw a file.
    sys.disk.put("/h/a.object", Thing::Dir);
    let ran = sys.execute(&module, &[request("a")], Mode::Trash);
    assert_eq!(ran.outcome.entries[0].result, skipped(BlockReason::KindChanged));
    assert!(sys.ran.is_empty(), "the command never ran");
}

#[test]
fn a_removes_entry_runs_its_command_and_reports_its_target() {
    let mut sys = Sys::new(Disk::new().file("/h/a.object"));
    sys.install("rm");
    sys.replies.push(Reply {
        argv: words(&["rm", "/h/a.object"]),
        answer: Ok(ok()),
        removes: Some("/h/a.object".to_owned()),
    });
    let module = Scripted::new()
        .both(item("a", Level::Safe, 3, Some("/h/a.object")), vec![removes("/h/a.object")]);
    let ran = sys.execute(&module, &[request("a")], Mode::Trash);
    let entry = &ran.outcome.entries[0];
    assert_eq!(entry.result, EntryResult::Removed { bytes: 3 });
    assert!(!sys.disk.has("/h/a.object"));
    assert_eq!(entry.targets, words(&["/h/a.object"]));
    assert_eq!(entry.kind, Some(NodeKind::File));
    // Nothing about it went to the Trash, whatever the batch was asked.
    assert_eq!(entry.mode, Mode::Permanent);
    assert_eq!(ran.outcome.mode, Mode::Trash);
}

#[test]
fn blocked_entries_are_skipped_with_their_reason() {
    let (mut sys, module) = folder("k", Level::Keep, 1);
    let ran = sys.execute(&module, &[request("k"), request("gone")], Mode::Trash);
    assert_eq!(ran.outcome.entries[0].result, skipped(BlockReason::Kept));
    assert_eq!(ran.outcome.entries[1].result, skipped(BlockReason::Missing));
    assert!(sys.disk.has("/h/k"));
    assert_eq!(ran.outcome.entries[1].path, None);
}

#[test]
fn execute_plans_again_from_the_requests() {
    let mut sys = Sys::new(Disk::new().dir("/h/before").dir("/h/after"));
    let previewed = Scripted::new()
        .both(item("a", Level::Safe, 1, None), vec![delete_step("/h/before", NodeKind::Dir)]);
    let current = Scripted::new()
        .both(item("a", Level::Safe, 1, None), vec![delete_step("/h/after", NodeKind::Dir)]);
    sys.preview(&previewed, &[request("a")], Mode::Permanent);
    sys.execute(&current, &[request("a")], Mode::Permanent);
    assert!(sys.disk.has("/h/before"), "the previewed plan is not what runs");
    assert!(!sys.disk.has("/h/after"), "the plan of the moment is");
}

#[test]
fn progress_is_reported_before_each_entry_and_at_the_end() {
    let (mut sys, module) = two_folders(["a", "b"]);
    let ran = sys.execute(&module, &[request("a"), request("b")], Mode::Trash);
    assert_eq!(
        ran.progress,
        vec![
            Progress { done: 0, total: 2, current: Some("a".to_owned()) },
            Progress { done: 1, total: 2, current: Some("b".to_owned()) },
            Progress { done: 2, total: 2, current: None },
        ]
    );
}

#[test]
fn the_batch_is_dated_before_anything_is_touched() {
    let (mut sys, module) = folder("a", Level::Safe, 1);
    let ran = sys.execute(&module, &[request("a")], Mode::Trash);
    assert_eq!(ran.outcome.at, started());
}

#[test]
fn a_request_is_screened_before_anything_is_planned() {
    let module = Scripted::new()
        .both(item("keep", Level::Keep, 0, None), Vec::new())
        .both(item("safe", Level::Safe, 0, None), Vec::new());
    let held = Held::new(&vec![(&module.plans, &module.items)]);
    let verdict = |request: &Request| screen(request, &held).err();
    assert_eq!(verdict(&request("safe")), None);
    assert_eq!(verdict(&request("gone")), Some(BlockReason::Missing));
    assert_eq!(verdict(&request("keep")), Some(BlockReason::Kept));
    assert_eq!(verdict(&with_option("keep", "force")), None);
    assert_eq!(verdict(&with_option("safe", "branch")), Some(BlockReason::KindChanged));
    let (_, found) = held.get("test:safe").unwrap();
    assert_eq!(found.title, "safe");
    assert!(held.get("safe").is_none());
}

#[test]
fn an_empty_batch_reports_that_it_is_over() {
    let mut sys = Sys::new(Disk::new());
    let ran = sys.execute(&Scripted::new(), &[], Mode::Permanent);
    assert!(ran.outcome.entries.is_empty());
    assert_eq!(ran.progress, vec![Progress { done: 0, total: 0, current: None }]);
}

#[test]
fn a_plan_is_the_first_answer_to_its_question() {
    let folder = item("a", Level::Safe, 1, None);
    let mut module = Scripted::new().with(
        folder.clone(),
        vec![delete_step("/h/a", NodeKind::Dir)],
        vec![run_step(&["rm", "/h/a"], Effect::Destroys)],
    );
    let again = PlanLine { steps: Vec::new(), ..module.plans.lines[0].clone() };
    module.plans.lines.push(again);
    let action = folder.action("go").unwrap();
    let plan = |options: &[&str], mode| module.plans.plan(&folder, action, &words(options), mode);
    assert_eq!(plan(&[], Mode::Trash), vec![delete_step("/h/a", NodeKind::Dir)]);
    assert_eq!(
        plan(&["force"], Mode::Permanent),
        vec![run_step(&["rm", "/h/a"], Effect::Destroys)]
    );
    assert!(plan(&["force", "extra"], Mode::Trash).is_empty(), "never asked");
}
