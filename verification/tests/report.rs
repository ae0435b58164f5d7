use storage_monitor::action::model::Timestamp;
use storage_monitor::cli::report::{human_bytes, report_tree, ScanReport};
use storage_monitor::cli::scan_cmd::{report_lines, shorten};
use storage_monitor::disk::DiskUsage;
use storage_monitor::snapshot::delta::Delta;
use storage_monitor::scan::{Node, NodeKind, ScanResult, ScanStats, Subtree};

fn file(name: &str, size: u64) -> Subtree {
    Subtree::new(Node::new(name, NodeKind::File, size, size, 1, 0))
}

/// Directory totals are aggregated by the walker, so fixtures state them.
fn dir(name: &str, size: u64, file_count: u32, children: Vec<Subtree>) -> Subtree {
    Subtree::with_children(
        Node::new(name, NodeKind::Dir, size, size, file_count, 0),
        children,
    )
}

fn result() -> ScanResult {
    let mut locked = dir("locked", 0, 0, vec![]);
    locked.error = Some("permission denied".into());
    let (tree, _) = dir(
        "/root",
        45,
        3,
        vec![
            dir("a", 35, 2, vec![file("x.bin", 30), file("y.bin", 5)]),
            file("b.bin", 10),
            locked,
        ],
    )
    .flatten();
    ScanResult {
        root: "/root".into(),
        started_at: Timestamp { secs: 1_700_000_000, nanos: 0 },
        duration_ms: 1,
        stats: ScanStats { files: 0, dirs: 0, bytes: 0, errors: 0, hardlinks_skipped: 0 },
        cancelled: false,
        tree,
    }
}

#[test]
fn depth_cuts_the_tree_and_marks_the_cut() {
    let tree = report_tree(&result(), 1, 20);
    assert_eq!(tree.name, "/root");
    assert_eq!(tree.file_count, 3);
    assert!(!tree.truncated);
    let names: Vec<&str> = tree.children.iter().map(|c| c.name.as_str()).collect();
    assert_eq!(names, vec!["a", "b.bin", "locked"]);
    assert!(tree.children[0].children.is_empty());
    assert!(tree.children[0].truncated, "a has children below the depth");
    assert!(!tree.children[1].truncated, "a file has nothing to cut");
    assert_eq!(tree.children[2].error.as_deref(), Some("permission denied"));
}

#[test]
fn top_keeps_the_largest_children_and_marks_the_cut() {
    let tree = report_tree(&result(), 2, 1);
    assert_eq!(tree.children.len(), 1);
    assert_eq!(tree.children[0].name, "a");
    assert!(tree.truncated);
    assert_eq!(tree.children[0].children.len(), 1);
    assert_eq!(tree.children[0].children[0].name, "x.bin");
    assert!(tree.children[0].truncated);
}

#[test]
fn human_bytes_uses_decimal_units() {
    assert_eq!(human_bytes(0), "0 B");
    assert_eq!(human_bytes(999), "999 B");
    assert_eq!(human_bytes(1_000), "1.0 KB");
    assert_eq!(human_bytes(1_536_000), "1.5 MB");
    assert_eq!(human_bytes(2_000_000_000_000), "2.0 TB");
    assert_eq!(human_bytes(u64::MAX), "18446.7 PB");
}

/// The text a 64-bit float gives the same number of bytes.
fn by_float(bytes: u64) -> String {
    let units = ["KB", "MB", "GB", "TB", "PB"];
    if bytes < 1000 {
        return format!("{bytes} B");
    }
    let mut value = bytes as f64 / 1000.0;
    let mut unit = 0;
    while value >= 1000.0 && unit < units.len() - 1 {
        value /= 1000.0;
        unit += 1;
    }
    format!("{value:.1} {}", units[unit])
}

#[test]
fn human_bytes_rounds_as_a_float_does() {
    let mut seed: u64 = 0x9e37_79b9_7f4a_7c15;
    for shift in 0..64 {
        for step in 0..200u64 {
            seed ^= seed << 13;
            seed ^= seed >> 7;
            seed ^= seed << 17;
            let bytes = seed >> shift;
            assert_eq!(human_bytes(bytes), by_float(bytes), "{bytes}");
            let near = (1u64 << shift).wrapping_add(step).wrapping_sub(100);
            assert_eq!(human_bytes(near), by_float(near), "{near}");
        }
    }
    let mut power: u64 = 1;
    for _ in 0..19 {
        for factor in 1..10u64 {
            for around in 0..2000u64 {
                let bytes = power.saturating_mul(factor).wrapping_add(around).wrapping_sub(1000);
                assert_eq!(human_bytes(bytes), by_float(bytes), "{bytes}");
            }
        }
        power = power.saturating_mul(10);
    }
}

#[test]
fn human_bytes_at_the_edges_of_a_unit() {
    assert_eq!(human_bytes(1_049), "1.0 KB");
    assert_eq!(human_bytes(1_051), "1.1 KB");
    assert_eq!(human_bytes(999_999), "1000.0 KB");
    assert_eq!(human_bytes(1_000_000), "1.0 MB");
    assert_eq!(human_bytes(1_000_000_000_000_000), "1.0 PB");
}

#[test]
fn shorten_keeps_the_tail_of_long_paths() {
    assert_eq!(shorten("/short", 10), "/short");
    assert_eq!(shorten("/a/very/long/path", 8), "…ng/path");
    assert_eq!(shorten("/ünïcödé/path", 6), "…/path");
}

#[test]
fn a_depth_of_nothing_shows_the_root_alone() {
    let tree = report_tree(&result(), 0, 20);
    assert_eq!(tree.name, "/root");
    assert!(tree.children.is_empty());
    assert!(tree.truncated);
}

fn report() -> ScanReport {
    let result = result();
    ScanReport {
        root: result.root.clone(),
        started_at: result.started_at,
        duration_ms: 1_250,
        stats: ScanStats { files: 3, dirs: 3, bytes: 45, errors: 1, hardlinks_skipped: 0 },
        cancelled: false,
        disk: None,
        tree: report_tree(&result, 1, 20),
        snapshot: None,
        top_growers: vec![],
    }
}

#[test]
fn scan_text_output_mentions_the_root_and_a_child() {
    let shares: Vec<String> = ["77.8", "22.2", "0.0"].map(str::to_owned).to_vec();
    let lines = report_lines(&report(), "1.2", &shares);
    assert!(lines[0].contains("/root"));
    assert_eq!(
        lines,
        vec![
            "/root  45 B  (3 files, 3 dirs, 1 errors, 1.2s)",
            "      35 B   77.8%  a/",
            "      10 B   22.2%  b.bin",
            "       0 B    0.0%  locked/",
        ]
    );
}

#[test]
fn a_report_tells_the_volume_and_what_grew() {
    let mut report = report();
    report.tree.children.clear();
    report.disk = Some(DiskUsage {
        path: "/".into(),
        total: 2_000_000,
        available: 900,
        free: 1_000,
        used: 1_500_000,
    });
    let grown = |path: &str, delta: i64| Delta {
        path: path.into(),
        kind: NodeKind::Dir,
        before: 0,
        after: 0,
        delta,
    };
    report.top_growers = vec![grown("/root/a", 12_345_678_900), grown("/root", -1)];
    assert_eq!(
        report_lines(&report, "0.0", &vec![]),
        vec![
            "/root  45 B  (3 files, 3 dirs, 1 errors, 0.0s)",
            "volume: 1.5 MB used of 2.0 MB (900 B available)",
            "",
            "grew since the previous snapshot:",
            "  +12.3 GB  /root/a",
            "      +0 B  /root",
        ]
    );
}

#[test]
fn a_field_that_is_too_small_is_left_as_it_is() {
    let mut report = report();
    report.tree.children.truncate(1);
    report.tree.children[0].name = "ä".into();
    let shares = vec!["100.00".to_owned()];
    assert_eq!(report_lines(&report, "1", &shares)[1], "      35 B  100.00%  ä/");
}
