use storage_monitor::disk::{disk_usage, Volume};
use storage_monitor::path::{file_name, join, normalize, parent, same_paths, starts_with};
use storage_monitor::paths::{
    actions_log, actions_log_in, snapshots_dir, snapshots_dir_in, with_data_dir_override,
    DATA_DIR_ENV,
};
use storage_monitor::text::{at_most, decimal, lines_in, same, signed, trim};

#[test]
fn data_dir_honors_the_environment_override() {
    let dir = with_data_dir_override(Some("/tmp/sm-test-data"), Some("/u"), "/tmp");
    assert_eq!(dir, "/tmp/sm-test-data");
    assert_eq!(DATA_DIR_ENV, "STORAGE_MONITOR_DATA_DIR");
}

#[test]
fn snapshots_dir_is_inside_the_data_dir() {
    let dir = with_data_dir_override(Some("/tmp/sm-test-data"), None, "/tmp");
    assert_eq!(snapshots_dir_in(&dir), "/tmp/sm-test-data/snapshots");
    assert_eq!(actions_log_in(&dir), "/tmp/sm-test-data/actions.jsonl");
}

#[test]
fn the_data_dir_is_the_users_or_a_temporary_one() {
    assert_eq!(with_data_dir_override(None, Some("/u"), "/tmp"), "/u/storage-monitor");
    assert_eq!(with_data_dir_override(None, None, "/tmp"), "/tmp/storage-monitor");
    assert_eq!(snapshots_dir(None, Some("/u"), "/tmp"), "/u/storage-monitor/snapshots");
    assert_eq!(actions_log(Some("/d"), Some("/u"), "/tmp"), "/d/actions.jsonl");
}

#[test]
fn usage_counts_the_blocks_of_a_volume() {
    let volume = Volume {
        fragment_size: 4_096,
        blocks: 100,
        blocks_free: 40,
        blocks_available: 30,
    };
    let usage = disk_usage("/h", &volume);
    assert_eq!(usage.path, "/h");
    assert_eq!(usage.total, 409_600);
    assert_eq!(usage.free, 163_840);
    assert_eq!(usage.available, 122_880);
    assert_eq!(usage.used, 245_760);
}

/// What the standard library makes of the same paths.
#[test]
fn paths_read_as_the_standard_library_reads_them() {
    use_paths(&[
        "", "/", "//", ".", "./", "..", "/..", "a", "a/", "a//b", "./a", "a/.", "a/./b", "a/..",
        "/a", "/a/", "/a//b/", "/a/./b", "/a/../b", "/ab", "/a/b/c", "/./a", "a b/ü", "/a/.b",
    ]);
}

fn use_paths(paths: &[&str]) {
    for path in paths {
        let known = std::path::Path::new(path);
        let normal: std::path::PathBuf = known.components().collect();
        assert_eq!(normalize(path), normal.to_str().unwrap(), "normal form of {path:?}");
        assert_eq!(
            file_name(path).as_deref(),
            known.file_name().map(|name| name.to_str().unwrap()),
            "name of {path:?}"
        );
        assert_eq!(
            parent(path).as_deref(),
            known.parent().map(|above| above.to_str().unwrap()),
            "parent of {path:?}"
        );
        for other in paths {
            let base = std::path::Path::new(other);
            assert_eq!(starts_with(path, other), known.starts_with(base), "{path:?} {other:?}");
            assert_eq!(same_paths(path, other), known == base, "{path:?} {other:?}");
            assert_eq!(join(path, other), known.join(base).to_str().unwrap());
        }
    }
}

#[test]
fn texts_are_ordered_by_their_characters() {
    let texts = ["", "a", "ab", "b", "B", "ü", "z", "\u{10000}", "\u{ffff}"];
    for a in texts {
        for b in texts {
            assert_eq!(at_most(a, b), a <= b, "{a:?} {b:?}");
            assert_eq!(same(a, b), a == b, "{a:?} {b:?}");
        }
    }
}

#[test]
fn numbers_are_written_in_decimal() {
    for n in [0, 9, 10, 1_234_567_890, u64::MAX] {
        assert_eq!(decimal(n), n.to_string());
    }
    for n in [0, -1, 42, i64::MIN, i64::MAX] {
        assert_eq!(signed(n), n.to_string());
    }
}

#[test]
fn lines_and_white_space_are_those_of_the_standard_library() {
    for text in ["", "\n", "a", "a\n", "a\r\nb\n", "a\r", "\r\n", "a\n\nb", "a\r\r\n"] {
        let known: Vec<String> = text.lines().map(str::to_owned).collect();
        assert_eq!(lines_in(text), known, "{text:?}");
    }
    for code in 0..0x3100u32 {
        if let Some(c) = char::from_u32(code) {
            let text = format!("{c}x{c}");
            assert_eq!(trim(&text), text.trim(), "{code:x}");
        }
    }
}
