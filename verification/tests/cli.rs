use storage_monitor::action::model::Timestamp;
use storage_monitor::cli::modules_cmd::{
    cannot_run, could_not_look, find, level, list_lines, report_module, run_lines, size_text,
};
use storage_monitor::cli::scan_cmd::{
    cannot_resolve, exit_code, growth_since, root_to_scan, shorten, EXIT_CANCELLED,
};
use storage_monitor::module::item::{Item, Level, Reason, Size, Verdict};
use storage_monitor::module::{Availability, Descriptor};
use storage_monitor::scan::NodeKind;
use storage_monitor::snapshot::model::{Snapshot, SnapshotEntry, SNAPSHOT_FORMAT};

fn descriptor(id: &str) -> Descriptor {
    Descriptor {
        id: id.to_owned(),
        name: "Demo".to_owned(),
        description: "Things to throw away".to_owned(),
        tools: vec!["rm".to_owned()],
    }
}

#[test]
fn a_module_is_found_by_its_id() {
    let modules = vec![descriptor("a"), descriptor("demo"), descriptor("demo")];
    assert_eq!(find(&modules, "demo"), Ok(1));
}

#[test]
fn modules_run_an_unknown_id_fails_with_the_known_ids() {
    let modules = vec![descriptor("a"), descriptor("demo")];
    let error = find(&modules, "nope").unwrap_err();
    assert_eq!(error, "unknown module nope; this build has: a, demo");
    let error = find(&Vec::new(), "nope").unwrap_err();
    assert!(error.starts_with("unknown module nope"), "{error}");
}

#[test]
fn modules_list_names_the_demo_module_as_available() {
    let report = report_module(&descriptor("demo"), Availability::Available);
    assert!(report.available);
    assert_eq!(report.tools, vec!["rm".to_owned()]);
    let (first, second) = list_lines(&report);
    assert_eq!(first, "demo\tDemo\tavailable");
    assert_eq!(second, "\tThings to throw away");
}

#[test]
fn a_module_that_cannot_run_says_why() {
    let reason = "`rm` is not installed".to_owned();
    let report = report_module(&descriptor("demo"), Availability::Unavailable { reason });
    assert!(!report.available);
    assert_eq!(list_lines(&report).0, "demo\tDemo\tunavailable: `rm` is not installed");
    assert_eq!(
        cannot_run("demo", "`rm` is not installed"),
        "the demo module cannot run here: `rm` is not installed"
    );
    assert_eq!(could_not_look("demo", "odd"), "the demo module could not look around: odd");
}

#[test]
fn a_level_and_a_size_have_their_words() {
    assert_eq!(level(Level::Safe), "safe");
    assert_eq!(level(Level::Review), "review");
    assert_eq!(level(Level::Keep), "keep");
    assert_eq!(size_text(Size::exact(1_500)), "1.5 KB");
    assert_eq!(size_text(Size::estimated(1_500)), "~1.5 KB");
}

#[test]
fn the_folder_to_scan_is_the_one_asked_for_or_the_home_folder() {
    assert_eq!(root_to_scan(Some(Ok("/a".to_owned())), None), Ok("/a".to_owned()));
    let error = cannot_resolve("/b", "no such file");
    assert_eq!(error, "cannot resolve /b: no such file");
    assert_eq!(root_to_scan(Some(Err(error.clone())), Some("/h")), Err(error));
    assert_eq!(root_to_scan(None, Some("/h")), Ok("/h".to_owned()));
    assert_eq!(root_to_scan(None, None), Err("cannot determine the home folder".to_owned()));
}

#[test]
fn a_cancelled_scan_ends_as_an_interrupted_program_does() {
    assert_eq!(exit_code(false), 0);
    assert_eq!(exit_code(true), 130);
    assert_eq!(EXIT_CANCELLED, 130);
}

#[test]
fn a_path_with_room_for_nothing_is_an_ellipsis() {
    assert_eq!(shorten("/abc", 1), "…");
    assert_eq!(shorten("", 0), "");
    assert_eq!(shorten("/abc", 4), "/abc");
}

fn snap(size: u64) -> Snapshot {
    Snapshot {
        format: SNAPSHOT_FORMAT,
        taken_at: Timestamp { secs: 0, nanos: 0 },
        root: "/h".to_owned(),
        total_bytes: size,
        file_count: 0,
        file_threshold: 0,
        entries: vec![SnapshotEntry {
            path: "/h".to_owned(),
            kind: NodeKind::Dir,
            size,
            file_count: 0,
            mtime: 0,
        }],
    }
}

#[test]
fn growth_needs_a_snapshot_to_compare_with() {
    assert!(growth_since(&None, &snap(9)).is_empty());
    let growers = growth_since(&Some(snap(4)), &snap(9));
    assert_eq!(growers.len(), 1);
    assert_eq!((growers[0].before, growers[0].after, growers[0].delta), (4, 9, 5));
}

fn item(title: &str, size: Size, verdict: Verdict) -> Item {
    Item {
        id: format!("demo:{title}"),
        module: "demo".to_owned(),
        kind: "thing".to_owned(),
        title: title.to_owned(),
        subtitle: None,
        path: None,
        size,
        last_used: None,
        verdict,
        facts: vec![],
        actions: vec![],
    }
}

#[test]
fn modules_run_demo_prints_its_items_with_verdicts() {
    let held = Reason::new("keep", "It holds a KEEP file");
    let old = Reason::new("old", "Nobody opened it");
    let lines = run_lines(&vec![
        item("keepsake", Size::exact(2_048), Verdict::new(Level::Keep, vec![held])),
        item("old.object", Size::estimated(64_000), Verdict::new(Level::Review, vec![old])),
        item("fresh.object", Size::exact(1), Verdict::new(Level::Safe, vec![])),
    ]);
    assert_eq!(
        lines,
        vec![
            "keep       2.0 KB  keepsake",
            "                   It holds a KEEP file",
            "review   ~64.0 KB  old.object",
            "                   Nobody opened it",
            "safe          1 B  fresh.object",
        ]
    );
}
