use storage_monitor::action::model::Timestamp;
use storage_monitor::scan::progress::ScanProgress;
use storage_monitor::scan::walk::{scan, walk_dir, Listing};
use storage_monitor::scan::walker::{
    cancelled_dir, close_dir, finish_scan, is_excluded, is_gone, needs_root_device,
    node_from_metadata, open_root, rescan_path, root_device, survey, unreadable_dir, walk_from,
    Entry, Facts, IoError, IoErrorKind, Rescan,
};
use storage_monitor::scan::{
    Node, NodeKind, ScanError, ScanOptions, ScanResult, Subtree, Tree,
};

fn facts(is_dir: bool, blocks: u64) -> Facts {
    Facts {
        is_dir,
        is_symlink: false,
        is_file: !is_dir,
        dev: 1,
        ino: 0,
        nlink: 1,
        blocks,
        len: blocks * 500,
        mtime: 7,
    }
}

fn file_facts(blocks: u64) -> Facts {
    facts(false, blocks)
}

fn dir_facts() -> Facts {
    facts(true, 8)
}

fn options(root: &str) -> ScanOptions {
    ScanOptions::new(root.to_owned())
}

fn io(kind: IoErrorKind) -> IoError {
    IoError { kind, message: "it said no".to_owned() }
}

#[test]
fn kinds_come_from_metadata_that_did_not_follow_the_link() {
    assert_eq!(NodeKind::from_metadata(true, false, false), NodeKind::Dir);
    assert_eq!(NodeKind::from_metadata(false, true, false), NodeKind::Symlink);
    assert_eq!(NodeKind::from_metadata(false, false, true), NodeKind::File);
    assert_eq!(NodeKind::from_metadata(false, false, false), NodeKind::Other);
}

#[test]
fn a_node_counts_blocks_and_a_directory_counts_nothing_else() {
    let file = node_from_metadata("f", &file_facts(3));
    assert_eq!((file.size, file.logical_size, file.file_count), (1_536, 1_500, 1));
    assert_eq!((&*file.name, file.kind, file.mtime), ("f", NodeKind::File, 7));
    let dir = node_from_metadata("d", &dir_facts());
    assert_eq!((dir.size, dir.logical_size, dir.file_count), (4_096, 0, 0));
}

#[test]
fn a_rescan_keeps_every_option_of_the_scan_but_the_root() {
    for same_device in [true, false] {
        let options = ScanOptions {
            root: "/home/me".to_owned(),
            excludes: vec!["/home/me/Library".to_owned()],
            same_device,
        };
        let patched = options.rooted_at("/home/me/cache".to_owned());
        assert_eq!(patched.root, "/home/me/cache");
        assert_eq!(patched.excludes, options.excludes);
        assert_eq!(patched.same_device, same_device, "the volume rule of the scan is kept");
    }
}

#[test]
fn an_exclude_is_compared_as_a_path() {
    let mut options = options("/h");
    options.excludes.push("/h/skip/".to_owned());
    assert!(is_excluded(&options, "/h/skip"));
    assert!(!is_excluded(&options, "/h/skip/below"));
    assert!(!is_excluded(&options, "/h/skipped"));
}

#[test]
fn a_directory_that_is_gone_by_the_time_the_walk_starts_is_not_an_error() {
    let gone = open_root(&options("/definitely/missing"), &Err(io(IoErrorKind::NotFound)));
    assert!(walk_from(Err(gone.unwrap_err())).unwrap().is_none());
    let tree = Subtree::new(Node::new("/a", NodeKind::Dir, 1, 0, 0, 0)).flatten().0;
    assert_eq!(walk_from(Ok(tree)).unwrap().unwrap().len(), 1);
}

#[test]
fn a_directory_that_cannot_be_read_keeps_its_error() {
    // A root that exists and is not a directory: the scan reports it, the patch passes it on.
    let error = open_root(&options("/etc/hosts"), &Ok(file_facts(1))).unwrap_err();
    assert_eq!(error, ScanError::NotADirectory("/etc/hosts".to_owned()));
    assert_eq!(error.message(), "/etc/hosts is not a directory");
    match walk_from(Err(error)) {
        Err(ScanError::NotADirectory(path)) => assert_eq!(path, "/etc/hosts"),
        _ => panic!("expected NotADirectory"),
    }
    let locked = ScanError::Root {
        path: "/locked".to_owned(),
        kind: IoErrorKind::Other,
        source: "permission denied".to_owned(),
    };
    assert_eq!(
        walk_from(Err(locked)).unwrap_err().message(),
        "cannot read /locked: permission denied"
    );
    let workers = ScanError::Workers("no threads".to_owned());
    assert_eq!(workers.message(), "cannot start the scan workers: no threads");
}

#[test]
fn only_a_missing_path_and_a_missing_parent_count_as_gone() {
    for kind in [IoErrorKind::NotFound, IoErrorKind::NotADirectory] {
        assert!(is_gone(kind), "{kind:?}");
    }
    assert!(!is_gone(IoErrorKind::Other));
}

#[test]
fn the_volume_of_a_scan_root_that_cannot_be_read_is_an_error() {
    // The root is normalized before it is reported, exactly as a scan reports it.
    let options = options("/definitely/missing/");
    match root_device(&options, &Err(io(IoErrorKind::NotFound))) {
        Err(ScanError::Root { path, kind, source }) => {
            assert_eq!(path, "/definitely/missing");
            assert_eq!(kind, IoErrorKind::NotFound);
            assert_eq!(source, "it said no");
        }
        other => panic!("expected a Root error, got {other:?}"),
    }
    assert_eq!(root_device(&options, &Ok(dir_facts())), Ok(1));
}

#[test]
fn a_scan_starts_at_its_root_in_normal_form() {
    let node = open_root(&options("/h/./me//"), &Ok(dir_facts())).unwrap();
    assert_eq!(&*node.name, "/h/me");
    assert_eq!(node.kind, NodeKind::Dir);
    assert_eq!(options("/h/./me//").clean_root(), "/h/me");
}

fn found(path: &str, facts: Facts) -> Entry {
    let name = path[path.rfind('/').unwrap() + 1..].to_owned();
    Entry::Found { path: path.to_owned(), name, facts }
}

#[test]
fn a_survey_tells_what_is_walked_from_what_is_listed() {
    let mut options = options("/h");
    options.excludes.push("/h/skip".to_owned());
    let elsewhere = Facts { dev: 2, ..dir_facts() };
    let linked = Facts { nlink: 2, ino: 9, ..file_facts(4) };
    let entries = vec![
        Entry::Unreadable,
        found("/h/a", dir_facts()),
        found("/h/skip", dir_facts()),
        found("/h/mount", elsewhere),
        found("/h/f", file_facts(2)),
        found("/h/twin", linked),
    ];
    let mut progress = ScanProgress::default();
    let seen = survey(&entries, &options, 1, &mut progress);
    assert_eq!(seen.unreadable, 1);
    assert_eq!(seen.dirs.len(), 1);
    assert_eq!(seen.dirs[0].0, "/h/a");
    let names: Vec<&str> = seen.leaves.iter().map(|leaf| &*leaf.node.name).collect();
    assert_eq!(names, vec!["mount", "f", "twin"]);
    assert_eq!(seen.leaves[0].error.as_deref(), Some("skipped: different volume"));
    assert_eq!(seen.leaves[1].hardlink, None);
    assert_eq!(seen.leaves[2].hardlink, Some((1, 9)));
    let counted = progress.snapshot();
    assert_eq!((counted.files, counted.dirs, counted.errors), (2, 1, 0));
    assert_eq!(counted.bytes, 4_096 + 1_024 + 2_048);

    options.same_device = false;
    let seen = survey(&entries, &options, 1, &mut ScanProgress::default());
    assert_eq!(seen.dirs.len(), 2, "another volume is walked where that is allowed");
}

#[test]
fn a_directory_that_was_not_listed_says_why() {
    let mut progress = ScanProgress::default();
    progress.enter("/h/a");
    let stopped = cancelled_dir(node_from_metadata("a", &dir_facts()), &mut progress);
    assert_eq!(stopped.error.as_deref(), Some("scan cancelled"));
    let node = node_from_metadata("b", &dir_facts());
    let locked = unreadable_dir(node, "permission denied", &mut progress);
    assert_eq!(locked.error.as_deref(), Some("permission denied"));
    let counted = progress.snapshot();
    assert_eq!((counted.dirs, counted.errors, counted.bytes), (2, 1, 8_192));
    assert_eq!(counted.current_path, "/h/a");
    assert!(!counted.cancelled);
}

#[test]
fn a_directory_is_its_own_blocks_and_everything_below_it() {
    let mut progress = ScanProgress::default();
    let leaf = Subtree::new(node_from_metadata("f", &file_facts(2)));
    let below = close_dir(
        node_from_metadata("sub", &dir_facts()),
        vec![Subtree::new(node_from_metadata("g", &file_facts(4)))],
        vec![],
        0,
        &mut progress,
    );
    assert!(below.error.is_none());
    let top = node_from_metadata("/h", &dir_facts());
    let closed = close_dir(top, vec![leaf], vec![below], 2, &mut progress);
    assert_eq!(closed.node.size, 4_096 + 1_024 + 4_096 + 2_048);
    assert_eq!(closed.node.logical_size, 1_000 + 2_000);
    assert_eq!(closed.node.file_count, 2);
    assert_eq!(closed.children.len(), 2);
    assert_eq!(closed.error.as_deref(), Some("2 entries could not be read"));
    assert_eq!(progress.snapshot().errors, 2);
    let one = close_dir(
        node_from_metadata("x", &dir_facts()),
        vec![],
        vec![],
        1,
        &mut progress,
    );
    assert_eq!(one.error.as_deref(), Some("1 entry could not be read"));
}

/// A walk over two links to the same data.
fn walked() -> ScanResult {
    let mut progress = ScanProgress::default();
    let linked = Facts { nlink: 2, ino: 9, ..file_facts(4) };
    let entries = vec![found("/h/b", linked), found("/h/a", linked)];
    let seen = survey(&entries, &options("/h"), 1, &mut progress);
    let root = open_root(&options("/h"), &Ok(dir_facts())).unwrap();
    let closed = close_dir(root, seen.leaves, vec![], seen.unreadable, &mut progress);
    let at = Timestamp { secs: 5, nanos: 0 };
    finish_scan(closed, "/h".to_owned(), at, 3, false, &progress)
}

#[test]
fn linked_data_is_counted_once_under_the_smallest_path() {
    let result = walked();
    assert_eq!(result.stats.hardlinks_skipped, 1);
    assert_eq!((result.stats.files, result.stats.dirs, result.stats.errors), (2, 1, 0));
    assert_eq!(result.stats.bytes, result.tree.root().size);
    assert_eq!(result.stats.bytes, 4_096 + 2_048);
    let size = |path: &str| {
        let id = result.tree.find(path).unwrap();
        result.tree.get(id).unwrap().size
    };
    assert_eq!((size("/h/a"), size("/h/b")), (2_048, 0));
    assert_eq!((result.duration_ms, result.cancelled), (3, false));
    assert_eq!(result.root, "/h");
}

fn single(rescan: Rescan) -> Tree {
    match rescan {
        Rescan::Single(tree) => tree,
        other => panic!("expected a single node, got {other:?}"),
    }
}

#[test]
fn a_rescan_drops_what_is_gone_and_keeps_what_cannot_be_read() {
    let options = options("/h");
    let gone = rescan_path("/h/a", &options, &Err(io(IoErrorKind::NotFound)), None);
    assert!(matches!(gone, Rescan::Gone));
    let gone = rescan_path("/h/a", &options, &Err(io(IoErrorKind::NotADirectory)), None);
    assert!(matches!(gone, Rescan::Gone));
    match rescan_path("/h/a/", &options, &Err(io(IoErrorKind::Other)), None) {
        Rescan::Failed(error) => assert_eq!(error.message(), "cannot read /h/a: it said no"),
        other => panic!("expected a failure, got {other:?}"),
    }
}

#[test]
fn a_rescan_walks_a_directory_of_the_same_volume_alone() {
    let mut options = options("/h");
    let stat = Ok(dir_facts());
    assert!(needs_root_device(&stat, &options));
    assert!(matches!(rescan_path("/h/a", &options, &stat, Some(Ok(1))), Rescan::Walk));
    let skipped = single(rescan_path("/h/a", &options, &stat, Some(Ok(2))));
    assert_eq!(skipped.len(), 1);
    assert_eq!(skipped.path(Tree::ROOT), "/h/a");
    assert_eq!(skipped.error(Tree::ROOT), Some("skipped: different volume"));
    let unread = ScanError::Workers("x".to_owned());
    assert!(matches!(
        rescan_path("/h/a", &options, &stat, Some(Err(unread))),
        Rescan::Failed(ScanError::Workers(_))
    ));
    options.same_device = false;
    assert!(!needs_root_device(&stat, &options));
    assert!(matches!(rescan_path("/h/a", &options, &stat, None), Rescan::Walk));
}

#[test]
fn a_rescan_reports_what_took_the_name() {
    let link = Facts { is_symlink: true, is_file: false, ..file_facts(0) };
    let tree = single(rescan_path("/h/a/.", &options("/h"), &Ok(link), None));
    assert_eq!(tree.root().kind, NodeKind::Symlink);
    assert_eq!(&*tree.root().name, "/h/a");
    assert_eq!(tree.error(Tree::ROOT), None);
}

/// ```text
/// /h
///   a/            one entry that cannot be read
///     f
///   locked/       cannot be listed
///   late/         cancelled before it was
///   skip/         held back
///   g
/// ```
fn read() -> (ScanOptions, Listing) {
    let mut options = options("/h/");
    options.excludes.push("/h/skip".to_owned());
    let a = Listing::Read {
        entries: vec![found("/h/a/f", file_facts(6)), Entry::Unreadable],
        below: vec![],
    };
    let listing = Listing::Read {
        entries: vec![
            found("/h/g", file_facts(2)),
            found("/h/a", dir_facts()),
            found("/h/skip", dir_facts()),
            found("/h/locked", dir_facts()),
            found("/h/late", dir_facts()),
        ],
        below: vec![a, Listing::Unreadable("denied".to_owned()), Listing::Cancelled],
    };
    (options, listing)
}

#[test]
fn a_scan_is_the_tree_of_what_was_read() {
    let (options, listing) = read();
    let mut progress = ScanProgress::default();
    let at = Timestamp { secs: 5, nanos: 0 };
    let result = scan(&options, &Ok(dir_facts()), &listing, at, 3, &mut progress).unwrap();
    assert_eq!((result.root.as_str(), result.started_at, result.duration_ms), ("/h", at, 3));
    assert!(!result.cancelled);
    let tree = &result.tree;
    let names: Vec<&str> =
        tree.children(Tree::ROOT).map(|id| &*tree.get(id).unwrap().name).collect();
    assert_eq!(names, vec!["a", "late", "locked", "g"], "largest first, then by name");
    let root = tree.root();
    assert_eq!(root.size, 4 * 4_096 + 8 * 512);
    assert_eq!((root.logical_size, root.file_count), (8 * 500, 2));
    let error = |path: &str| tree.error(tree.find(path).unwrap());
    assert_eq!(error("/h/a"), Some("1 entry could not be read"));
    assert_eq!(error("/h/locked"), Some("denied"));
    assert_eq!(error("/h/late"), Some("scan cancelled"));
    assert_eq!(error("/h"), None);
    assert!(tree.find("/h/skip").is_none());
    assert_eq!((result.stats.files, result.stats.dirs, result.stats.errors), (2, 4, 2));
    assert_eq!(result.stats.bytes, root.size);
    assert_eq!(progress.snapshot().current_path, "/h/late");
}

#[test]
fn a_scan_that_was_asked_to_stop_says_so() {
    let mut progress = ScanProgress::default();
    progress.cancel();
    let at = Timestamp { secs: 5, nanos: 0 };
    let stat = Ok(dir_facts());
    let result = scan(&options("/h"), &stat, &Listing::Cancelled, at, 3, &mut progress).unwrap();
    assert!(result.cancelled);
    assert_eq!(result.tree.error(Tree::ROOT), Some("scan cancelled"));
    assert_eq!(result.tree.len(), 1);
}

#[test]
fn a_root_that_is_no_directory_is_not_scanned() {
    let at = Timestamp { secs: 5, nanos: 0 };
    let mut progress = ScanProgress::default();
    let nothing = Listing::Cancelled;
    let stat = Ok(file_facts(1));
    let error = scan(&options("/h/f"), &stat, &nothing, at, 3, &mut progress).unwrap_err();
    assert_eq!(error, ScanError::NotADirectory("/h/f".to_owned()));
    let stat = Err(io(IoErrorKind::NotFound));
    let error = scan(&options("/h/f"), &stat, &nothing, at, 3, &mut progress).unwrap_err();
    assert_eq!(error.message(), "cannot read /h/f: it said no");
    assert_eq!(progress.snapshot().dirs, 0);
}

#[test]
fn a_walk_counts_what_it_meets() {
    let (options, listing) = read();
    let mut progress = ScanProgress::default();
    let node = node_from_metadata("/h", &dir_facts());
    let subtree = walk_dir("/h", node, &listing, &options, 1, &mut progress);
    assert_eq!(subtree.count(), 6);
    assert_eq!(progress.snapshot().bytes, 4 * 4_096 + 8 * 512);
}
