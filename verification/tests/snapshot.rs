use storage_monitor::action::model::Timestamp;
use storage_monitor::scan::{Node, NodeKind, ScanResult, ScanStats, Subtree};
use storage_monitor::snapshot::delta::{deltas, top_growers, Delta};
use storage_monitor::snapshot::model::{
    CodecError, Snapshot, SnapshotEntry, SNAPSHOT_FORMAT,
};
use storage_monitor::snapshot::store::{Pruned, SnapshotMeta, SnapshotStore, StoreFile};
use storage_monitor::snapshot::{DEFAULT_FILE_THRESHOLD, DEFAULT_KEEP};

fn at(secs: i64) -> Timestamp {
    Timestamp { secs, nanos: 0 }
}

fn node(name: &str, kind: NodeKind, size: u64) -> Node {
    let files = if kind == NodeKind::Dir { 0 } else { 1 };
    Node::new(name, kind, size, size, files, 7)
}

fn file(name: &str, size: u64) -> Subtree {
    Subtree::new(node(name, NodeKind::File, size))
}

fn result() -> ScanResult {
    let cache = Subtree::with_children(
        node("cache", NodeKind::Dir, 0),
        vec![file("blob", 5_000)],
    );
    let home = Subtree::with_children(
        node("/home", NodeKind::Dir, 0),
        vec![file("small.txt", 10), file("big.iso", 20_000), cache],
    );
    ScanResult {
        root: "/home".to_owned(),
        started_at: at(1_700_000_000),
        duration_ms: 1,
        stats: ScanStats { files: 0, dirs: 0, bytes: 0, errors: 0, hardlinks_skipped: 0 },
        cancelled: false,
        tree: home.flatten().0,
    }
}

#[test]
fn snapshot_keeps_directories_and_files_above_threshold() {
    let snap = Snapshot::from_result(&result(), 1_000);
    let paths: Vec<&str> = snap.entries.iter().map(|e| e.path.as_str()).collect();
    assert_eq!(
        paths,
        vec!["/home", "/home/big.iso", "/home/cache", "/home/cache/blob"]
    );
    assert_eq!(snap.file_threshold, 1_000);
    assert_eq!(snap.format, SNAPSHOT_FORMAT);
    assert_eq!(snap.taken_at, at(1_700_000_000));
}

#[test]
fn snapshot_round_trips_through_bytes() {
    let snap = Snapshot::from_result(&result(), 1_000);
    let bytes = snap.encode().unwrap();
    let back = Snapshot::decode(&bytes).unwrap();
    assert_eq!(back.entries, snap.entries);
    assert_eq!(back.root, snap.root);
    assert_eq!(back.taken_at, snap.taken_at);
    assert_eq!(back.file_threshold, snap.file_threshold);
}

#[test]
fn size_index_maps_paths_to_sizes() {
    let snap = Snapshot::from_result(&result(), 1_000);
    let index = snap.size_index();
    assert_eq!(index.get("/home/big.iso"), Some(20_000));
    assert_eq!(index.get("/home/small.txt"), None);
}

#[test]
fn every_instant_of_the_calendar_comes_back() {
    let mut snap = Snapshot::from_result(&result(), 1_000);
    let instants = [
        (0, 0),
        (-1, 999_999_999),
        (1_700_000_000, 120_000_000),
        (1_700_000_000, 1),
        // Years of five digits, of six, and before the first.
        (327_403_382_400, 5),
        (8_210_266_876_799, 0),
        (-62_200_000_000, 7),
        (-8_334_601_228_800, 0),
        // Inside leap seconds: the last of 2016, and one nobody announced.
        (1_483_228_799, 1_500_000_000),
        (59, 1_999_999_999),
    ];
    for (secs, nanos) in instants {
        snap.taken_at = Timestamp { secs, nanos };
        let bytes = snap.encode().unwrap();
        assert_eq!(Snapshot::decode(&bytes).unwrap().taken_at, snap.taken_at);
    }
    // No minute has a second 60 but at its end.
    snap.taken_at = Timestamp { secs: 58, nanos: 1_000_000_000 };
    assert!(matches!(snap.encode(), Err(CodecError::Encode(_))));
    snap.taken_at = at(i64::MAX);
    assert!(matches!(snap.encode(), Err(CodecError::Encode(_))));
}

#[test]
fn the_bytes_are_a_block_of_packed_values() {
    let snap = Snapshot {
        format: SNAPSHOT_FORMAT,
        taken_at: at(1_700_000_000),
        root: "/h".to_owned(),
        total_bytes: 300,
        file_count: 2,
        file_threshold: 0,
        entries: vec![SnapshotEntry {
            path: "/h".to_owned(),
            kind: NodeKind::Symlink,
            size: 1,
            file_count: 2,
            mtime: -1,
        }],
    };
    let raw = lz4_flex::decompress_size_prepended(&snap.encode().unwrap()).unwrap();
    let mut expected = vec![1, 20];
    expected.extend_from_slice(b"2023-11-14T22:13:20Z");
    expected.extend_from_slice(&[2, b'/', b'h', 0xac, 2, 2, 0]);
    expected.extend_from_slice(&[1, 2, b'/', b'h', 2, 1, 2, 1]);
    assert_eq!(raw, expected);
}

#[test]
fn bytes_that_are_no_snapshot_say_why() {
    let mut snap = Snapshot::from_result(&result(), 1_000);
    snap.format = 99;
    let other = snap.encode().unwrap();
    assert!(matches!(Snapshot::decode(&other), Err(CodecError::Format(99))));
    assert!(matches!(Snapshot::decode(b"xx"), Err(CodecError::Decompress(_))));
    let short = lz4_flex::compress_prepend_size(&[1, 200]);
    assert!(matches!(Snapshot::decode(&short), Err(CodecError::Encode(_))));
    // A kind no node has.
    let mut raw = vec![1, 20];
    raw.extend_from_slice(b"2023-11-14T22:13:20Z");
    raw.extend_from_slice(&[2, b'/', b'h', 0, 0, 0, 1, 2, b'/', b'h', 9, 1, 2, 1]);
    let odd = lz4_flex::compress_prepend_size(&raw);
    assert!(matches!(Snapshot::decode(&odd), Err(CodecError::Encode(_))));
}

fn snap(entries: &[(&str, NodeKind, u64)]) -> Snapshot {
    Snapshot {
        format: SNAPSHOT_FORMAT,
        taken_at: at(0),
        root: "/h".to_owned(),
        total_bytes: 0,
        file_count: 0,
        file_threshold: 0,
        entries: entries
            .iter()
            .map(|(path, kind, size)| SnapshotEntry {
                path: (*path).to_owned(),
                kind: *kind,
                size: *size,
                file_count: 0,
                mtime: 0,
            })
            .collect(),
    }
}

#[test]
fn deltas_cover_added_removed_and_changed_paths() {
    let before = snap(&[
        ("/h", NodeKind::Dir, 100),
        ("/h/a", NodeKind::Dir, 60),
        ("/h/gone", NodeKind::Dir, 40),
    ]);
    let after = snap(&[
        ("/h", NodeKind::Dir, 150),
        ("/h/a", NodeKind::Dir, 110),
        ("/h/new", NodeKind::Dir, 40),
    ]);
    let d = deltas(&before, &after);
    let find = |p: &str| d.iter().find(|x| x.path == p).unwrap();
    assert_eq!(find("/h").delta, 50);
    assert_eq!(find("/h/a").delta, 50);
    assert_eq!(find("/h/gone").delta, -40);
    assert_eq!(find("/h/new").delta, 40);
    assert_eq!(find("/h/new").before, 0);
    assert_eq!(find("/h/gone").after, 0);
    assert_eq!(d.len(), 4, "every path is told once");
}

#[test]
fn top_growers_prefer_the_child_that_explains_the_growth() {
    let before = snap(&[
        ("/h", NodeKind::Dir, 100),
        ("/h/lib", NodeKind::Dir, 50),
        ("/h/lib/xcode", NodeKind::Dir, 40),
        ("/h/docs", NodeKind::Dir, 50),
    ]);
    let after = snap(&[
        ("/h", NodeKind::Dir, 200),
        ("/h/lib", NodeKind::Dir, 140),
        ("/h/lib/xcode", NodeKind::Dir, 125),
        ("/h/docs", NodeKind::Dir, 60),
    ]);
    let top = top_growers(&deltas(&before, &after), 10);
    let paths: Vec<&str> = top.iter().map(|d| d.path.as_str()).collect();
    assert_eq!(paths, vec!["/h/lib/xcode", "/h/docs"]);
}

#[test]
fn top_growers_ignores_shrinking_and_files_and_respects_limit() {
    let before = snap(&[
        ("/h", NodeKind::Dir, 100),
        ("/h/a", NodeKind::Dir, 10),
        ("/h/b", NodeKind::Dir, 10),
        ("/h/f.iso", NodeKind::File, 80),
    ]);
    let after = snap(&[
        ("/h", NodeKind::Dir, 90),
        ("/h/a", NodeKind::Dir, 30),
        ("/h/b", NodeKind::Dir, 20),
        ("/h/f.iso", NodeKind::File, 40),
    ]);
    let top = top_growers(&deltas(&before, &after), 1);
    assert_eq!(top.len(), 1);
    assert_eq!(top[0].path, "/h/a");
}

fn grown(path: &str, delta: i64) -> Delta {
    Delta { path: path.to_owned(), kind: NodeKind::Dir, before: 0, after: delta as u64, delta }
}

#[test]
fn a_child_explains_a_growth_from_four_fifths_on() {
    let exactly = vec![grown("/h", 100), grown("/h/a", 80)];
    let top = top_growers(&exactly, 10);
    assert_eq!(top, vec![grown("/h/a", 80)]);
    let short = vec![grown("/h", 100), grown("/h/a", 79)];
    let top = top_growers(&short, 10);
    assert_eq!(top, vec![grown("/h", 100), grown("/h/a", 79)]);
    assert!(top_growers(&short, 0).is_empty());
}

fn meta(format: u32, root: &str, secs: i64, total: u64) -> SnapshotMeta {
    SnapshotMeta {
        path: String::new(),
        format,
        taken_at: at(secs),
        root: root.to_owned(),
        total_bytes: total,
        file_count: 1,
    }
}

fn plain(name: &str) -> StoreFile {
    StoreFile { name: name.to_owned(), payload: false, meta: None }
}

fn sidecar(name: &str, meta: SnapshotMeta) -> StoreFile {
    StoreFile { name: name.to_owned(), payload: false, meta: Some(meta) }
}

/// The files as a disk shows them: it knows which of them have a payload next to them.
fn shown(mut files: Vec<StoreFile>) -> Vec<StoreFile> {
    let names: Vec<String> = files.iter().map(|file| file.name.clone()).collect();
    for file in &mut files {
        let stem = file.name.rsplit_once('.').map_or(file.name.as_str(), |(stem, _)| stem);
        file.payload = names.contains(&format!("{stem}.snap"));
    }
    files
}

/// The two files of one snapshot.
fn saved(stamp: &str, meta: SnapshotMeta) -> Vec<StoreFile> {
    vec![plain(&format!("{stamp}.snap")), sidecar(&format!("{stamp}.json"), meta)]
}

fn store() -> SnapshotStore {
    SnapshotStore::new("/d/snapshots".to_owned())
}

fn without(files: &[StoreFile], removed: &[String]) -> Vec<StoreFile> {
    shown(files.iter().filter(|file| !removed.contains(&file.name)).cloned().collect())
}

/// A pruning on a disk that removes what it is asked to remove.
fn prune(store: &SnapshotStore, files: &Vec<StoreFile>, keep: usize) -> Pruned {
    let outdated = store.outdated_files(files, keep);
    let left = without(files, &outdated.remove);
    let strays = store.stray_files(&left);
    let pruned = store.prune(files, keep, &left);
    assert_eq!(pruned.remove, [outdated.remove, strays.remove].concat());
    assert_eq!(pruned.removed, outdated.removed + strays.removed);
    pruned
}

#[test]
fn save_list_load_and_prune() {
    let mut files = Vec::new();
    for (i, stamp) in ["t0", "t1", "t2"].iter().enumerate() {
        files.extend(saved(stamp, meta(SNAPSHOT_FORMAT, "/home", 60 * i as i64, i as u64)));
    }
    let files = shown(files);
    let store = store();
    let list = store.list(&files);
    assert_eq!(list.len(), 3);
    assert!(list[0].taken_at.secs > list[1].taken_at.secs, "newest first");
    assert_eq!(list[0].total_bytes, 2);
    assert_eq!(store.latest(&files).unwrap().total_bytes, 2);
    assert_eq!(list[2].path, "/d/snapshots/t0.snap");
    assert_eq!(list[2].total_bytes, 0);
    let pruned = prune(&store, &files, 2);
    assert_eq!(pruned.removed, 1);
    assert_eq!(pruned.remove, vec!["t0.snap".to_owned(), "t0.json".to_owned()]);
    let left = without(&files, &pruned.remove);
    assert_eq!(store.list(&left).len(), 2);
    assert_eq!(store.list(&left)[1].total_bytes, 1);
    let again = prune(&store, &left, 2);
    assert_eq!((again.removed, again.remove.len()), (0, 0), "pruning settles the store");
}

#[test]
fn a_payload_is_there_when_the_disk_says_so() {
    // A volume that folds case: the payload is listed in another spelling.
    let mut files = vec![plain("A.snap"), sidecar("a.json", meta(SNAPSHOT_FORMAT, "/h", 0, 1))];
    let store = store();
    assert!(store.list(&files).is_empty());
    files[1].payload = true;
    assert_eq!(store.list(&files)[0].path, "/d/snapshots/a.snap");
    // Removing it by the one name removes it under the other.
    let outdated = store.outdated_files(&files, 0);
    assert_eq!(outdated.remove, vec!["a.snap".to_owned(), "a.json".to_owned()]);
    assert_eq!(store.prune(&files, 0, &Vec::new()).removed, 1);
    // A link that leads nowhere is listed and is no payload.
    let dangling = vec![plain("b.snap"), sidecar("b.json", meta(SNAPSHOT_FORMAT, "/h", 0, 1))];
    assert!(store.list(&dangling).is_empty());
}

#[test]
fn damaged_files_are_ignored_by_list_and_removed_by_prune() {
    let mut files = saved("oldest", meta(SNAPSHOT_FORMAT, "/home", 0, 1));
    files.extend(saved("newest", meta(SNAPSHOT_FORMAT, "/home", 60, 2)));
    let mut expected: Vec<String> = files.iter().map(|file| file.name.clone()).collect();
    expected.sort();
    files.push(plain("truncated.json"));
    files.push(plain("truncated.snap"));
    files.push(plain("orphan.snap"));
    files.push(sidecar("lonely.json", meta(SNAPSHOT_FORMAT, "/home", 60, 2)));
    files.push(plain("stale.snap.tmp"));
    files.push(plain("stale.json.tmp"));
    let files = shown(files);
    let store = store();

    let list = store.list(&files);
    assert_eq!(list.len(), 2);
    assert_eq!(list[0].format, SNAPSHOT_FORMAT);
    assert_eq!(store.latest(&files).unwrap().total_bytes, 2);

    let pruned = prune(&store, &files, 10);
    assert_eq!(
        pruned.removed, 5,
        "truncated pair, orphan payload, lonely sidecar, two temporary files"
    );
    let left = without(&files, &pruned.remove);
    let mut names: Vec<String> = left.iter().map(|file| file.name.clone()).collect();
    names.sort();
    assert_eq!(names, expected);
    assert_eq!(store.list(&left).len(), 2);
}

#[test]
fn sidecar_of_another_format_is_ignored_but_kept() {
    let mut files = saved("good", meta(SNAPSHOT_FORMAT, "/home", 0, 1));
    files.extend(saved("future", meta(99, "/home", 60, 99)));
    let files = shown(files);
    let store = store();
    assert_eq!(store.list(&files).len(), 1);
    assert_eq!(store.latest(&files).unwrap().total_bytes, 1);
    let pruned = prune(&store, &files, 10);
    assert_eq!(pruned.removed, 0, "another format is not damage");
    assert!(pruned.remove.is_empty());
}

#[test]
fn empty_store_lists_nothing() {
    let store = SnapshotStore::new("/d/missing".to_owned());
    assert_eq!(store.dir(), "/d/missing");
    assert!(store.list(&Vec::new()).is_empty());
    assert!(store.latest(&Vec::new()).is_none());
    assert!(store.latest_for(&Vec::new(), "/home").is_none());
    assert!(prune(&store, &Vec::new(), 0).remove.is_empty());
}

#[test]
fn latest_for_picks_the_newest_snapshot_of_that_root() {
    let mut files = saved("t0", meta(SNAPSHOT_FORMAT, "/home", 0, 1));
    files.extend(saved("t1", meta(SNAPSHOT_FORMAT, "/work", 60, 2)));
    files.extend(saved("t2", meta(SNAPSHOT_FORMAT, "/home", 120, 3)));
    let files = shown(files);
    let store = store();
    assert_eq!(store.latest(&files).unwrap().total_bytes, 3);
    let latest = |root: &str| store.latest_for(&files, root);
    assert_eq!(latest("/home").unwrap().total_bytes, 3);
    assert_eq!(latest("/work").unwrap().total_bytes, 2);
    assert!(latest("/elsewhere").is_none());
}

#[test]
fn a_payload_is_named_by_its_instant() {
    let taken_at = Timestamp { secs: 1_700_000_000, nanos: 45_999_999 };
    assert_eq!(
        store().payload_path(taken_at).as_deref(),
        Some("/d/snapshots/20231114T221320.045Z.snap")
    );
    assert_eq!(store().path_for("a"), "/d/snapshots/a.snap");
    assert_eq!(store().payload_path(at(i64::MAX)), None);
}

#[test]
fn a_sidecar_says_what_its_snapshot_says() {
    let snap = Snapshot::from_result(&result(), 1_000);
    let meta = SnapshotStore::meta_for("/d/a.snap".to_owned(), &snap);
    assert_eq!(meta.path, "/d/a.snap");
    assert_eq!(meta.format, SNAPSHOT_FORMAT);
    assert_eq!(meta.root, "/home");
    assert_eq!(meta.taken_at, snap.taken_at);
    assert_eq!((meta.total_bytes, meta.file_count), (snap.total_bytes, snap.file_count));
}

#[test]
fn the_defaults_of_a_snapshot() {
    assert_eq!(DEFAULT_KEEP, 10);
    assert_eq!(DEFAULT_FILE_THRESHOLD, 10 * 1024 * 1024);
}
