use chrono::{DateTime, Utc};
use serde_json::Value;

use storage_monitor::action::engine::tally;
use storage_monitor::action::log::{
    frame, lines_for, tail, wire_name, ActionLog, LogEntry, LogResult,
};
use storage_monitor::action::model::{
    BlockReason, EntryOutcome, EntryResult, Mode, Outcome, Timestamp,
};
use storage_monitor::scan::NodeKind;
use storage_monitor::text::lines_in;

const KINDS: [(NodeKind, &str); 4] = [
    (NodeKind::Dir, "dir"),
    (NodeKind::File, "file"),
    (NodeKind::Symlink, "symlink"),
    (NodeKind::Other, "other"),
];

const MODES: [(Mode, &str); 2] = [(Mode::Trash, "trash"), (Mode::Permanent, "permanent")];

const RESULTS: [(LogResult, &str); 3] = [
    (LogResult::Removed, "removed"),
    (LogResult::Failed, "failed"),
    (LogResult::Skipped, "skipped"),
];

fn name_of<T: PartialEq>(table: &[(T, &str)], value: &T) -> Value {
    let found = table.iter().find(|(known, _)| known == value).unwrap();
    Value::String(found.1.to_owned())
}

fn value_of<T: Copy>(table: &[(T, &str)], name: Option<&Value>) -> Option<T> {
    let name = name?.as_str()?;
    table.iter().find(|(_, known)| *known == name).map(|(value, _)| *value)
}

/// One line of the log as JSON.
fn encode(entry: &LogEntry) -> String {
    let at: DateTime<Utc> = DateTime::from_timestamp(entry.at.secs, entry.at.nanos).unwrap();
    let mut line = serde_json::Map::new();
    line.insert("at".to_owned(), Value::String(at.to_rfc3339()));
    line.insert("path".to_owned(), Value::String(entry.path.clone()));
    line.insert("kind".to_owned(), name_of(&KINDS, &entry.kind));
    line.insert("mode".to_owned(), name_of(&MODES, &entry.mode));
    line.insert("result".to_owned(), name_of(&RESULTS, &entry.result));
    let detail = entry.detail.clone().map_or(Value::Null, Value::String);
    line.insert("detail".to_owned(), detail);
    line.insert("bytes".to_owned(), Value::from(entry.bytes));
    Value::Object(line).to_string()
}

fn decode(line: &str) -> Option<LogEntry> {
    let value: Value = serde_json::from_str(line).ok()?;
    let at: DateTime<Utc> = value.get("at")?.as_str()?.parse().ok()?;
    Some(LogEntry {
        at: Timestamp { secs: at.timestamp(), nanos: at.timestamp_subsec_nanos() },
        path: value.get("path")?.as_str()?.to_owned(),
        kind: value_of(&KINDS, value.get("kind"))?,
        mode: value_of(&MODES, value.get("mode"))?,
        result: value_of(&RESULTS, value.get("result"))?,
        detail: value.get("detail")?.as_str().map(str::to_owned),
        bytes: value.get("bytes")?.as_u64()?,
    })
}

/// A log whose file is kept in memory.
struct File {
    text: Vec<u8>,
}

impl File {
    fn new() -> File {
        File { text: Vec::new() }
    }

    fn append(&mut self, outcome: &Outcome) {
        let lines = lines_for(outcome).iter().map(encode).collect();
        self.text.extend_from_slice(frame(&lines).as_bytes());
    }

    fn lines(&self) -> Vec<String> {
        lines_in(&String::from_utf8_lossy(&self.text))
    }

    fn tail(&self, limit: usize) -> Vec<LogEntry> {
        tail(self.lines().iter().map(|line| decode(line)).collect(), limit)
    }
}

fn at(secs: i64) -> Timestamp {
    Timestamp { secs, nanos: 0 }
}

fn now() -> Timestamp {
    Timestamp { secs: 1_700_000_000, nanos: 123_456_789 }
}

fn outcome(path: &str, bytes: u64) -> EntryOutcome {
    EntryOutcome {
        path: path.to_owned(),
        kind: NodeKind::Dir,
        result: EntryResult::Removed { bytes },
    }
}

fn batch(mode: Mode, at: Timestamp, entries: Vec<EntryOutcome>) -> Outcome {
    tally(entries, at, mode)
}

fn paths(entries: &[LogEntry]) -> Vec<&str> {
    entries.iter().map(|entry| entry.path.as_str()).collect()
}

#[test]
fn entries_are_appended_and_read_newest_first() {
    let mut log = File::new();
    log.append(&batch(Mode::Trash, now(), vec![outcome("/h/a", 10)]));
    log.append(&batch(
        Mode::Permanent,
        now(),
        vec![outcome("/h/b", 20), outcome("/h/c", 30)],
    ));
    let entries = log.tail(10);
    assert_eq!(entries.len(), 3);
    assert_eq!(entries[0].path, "/h/c");
    assert_eq!(entries[0].mode, Mode::Permanent);
    assert_eq!(entries[2].path, "/h/a");
    assert_eq!(entries[2].mode, Mode::Trash);
}

#[test]
fn tail_returns_at_most_the_limit() {
    let mut log = File::new();
    for i in 0..5 {
        log.append(&batch(Mode::Trash, now(), vec![outcome(&format!("/h/{i}"), 1)]));
    }
    let entries = log.tail(2);
    assert_eq!(entries.len(), 2);
    assert_eq!(entries[0].path, "/h/4");
}

#[test]
fn a_damaged_line_is_skipped_instead_of_failing_the_read() {
    let mut log = File::new();
    log.text.extend_from_slice(b"{ truncated\n");
    log.append(&batch(Mode::Trash, now(), vec![outcome("/h/a", 1)]));
    assert_eq!(log.tail(10).len(), 1);
}

#[test]
fn a_missing_log_reads_as_empty() {
    assert!(File::new().tail(10).is_empty());
    assert_eq!(ActionLog::new("/d/nothing.jsonl".to_owned()).path, "/d/nothing.jsonl");
}

#[test]
fn failures_are_logged_too() {
    let mut log = File::new();
    let entry = EntryOutcome {
        path: "/h/x".to_owned(),
        kind: NodeKind::File,
        result: EntryResult::Failed { message: "permission denied".to_owned() },
    };
    log.append(&batch(Mode::Trash, now(), vec![entry]));
    let read = &log.tail(1)[0];
    assert_eq!(read.bytes, 0);
    assert!(matches!(read.result, LogResult::Failed));
    assert_eq!(read.detail.as_deref(), Some("permission denied"));
}

#[test]
fn a_batch_ends_its_last_line() {
    let mut log = File::new();
    log.append(&batch(Mode::Permanent, at(1_700_000_000), vec![outcome("/h/a.bin", 10)]));
    assert_eq!(log.lines().len(), 1);
    assert_eq!(
        log.text.last(),
        Some(&b'\n'),
        "or the next append glues two objects into one"
    );
    assert_eq!(frame(&vec!["a".to_owned(), "b".to_owned()]), "a\nb\n");
}

#[test]
fn a_name_with_a_newline_in_it_stays_one_line() {
    let mut log = File::new();
    let named_like_a_line = "/h/evil\n{\"path\":\"/h/forged\",\"bytes\":9000}";
    log.append(&batch(Mode::Trash, now(), vec![outcome(named_like_a_line, 1)]));
    assert_eq!(log.lines().len(), 1, "one entry is one line");
    let read = log.tail(10);
    assert_eq!(read.len(), 1);
    assert_eq!(read[0].path, named_like_a_line, "and it comes back whole");
    assert_eq!(read[0].bytes, 1);
}

#[test]
fn a_batch_logs_each_result_with_its_own_kind_bytes_and_detail() {
    let mut log = File::new();
    let entries = vec![
        EntryOutcome {
            path: "/h/gone".to_owned(),
            kind: NodeKind::Dir,
            result: EntryResult::Removed { bytes: 4_096 },
        },
        EntryOutcome {
            path: "/h/stuck".to_owned(),
            kind: NodeKind::File,
            result: EntryResult::Failed {
                message: "cannot delete /h/stuck: permission denied".to_owned(),
            },
        },
        EntryOutcome {
            path: "/h/link".to_owned(),
            kind: NodeKind::Symlink,
            result: EntryResult::Skipped { reason: BlockReason::Denylisted },
        },
    ];
    log.append(&batch(Mode::Trash, now(), entries));
    let read = log.tail(10);
    assert_eq!(read.len(), 3);

    let removed = &read[2];
    assert_eq!(removed.path, "/h/gone");
    assert_eq!(removed.kind, NodeKind::Dir);
    assert_eq!(removed.result, LogResult::Removed);
    assert_eq!(removed.bytes, 4_096);
    assert_eq!(removed.detail, None);

    let failed = &read[1];
    assert_eq!(failed.path, "/h/stuck");
    assert_eq!(failed.kind, NodeKind::File);
    assert_eq!(failed.result, LogResult::Failed);
    assert_eq!(failed.bytes, 0, "nothing was freed");
    assert_eq!(
        failed.detail.as_deref(),
        Some("cannot delete /h/stuck: permission denied")
    );

    let skipped = &read[0];
    assert_eq!(skipped.path, "/h/link");
    assert_eq!(skipped.kind, NodeKind::Symlink);
    assert_eq!(skipped.result, LogResult::Skipped);
    assert_eq!(skipped.bytes, 0, "nothing was freed");
    assert_eq!(
        skipped.detail.as_deref(),
        Some("denylisted"),
        "a skipped row says why, or the Activity screen cannot"
    );
}

#[test]
fn a_skipped_entry_keeps_its_reason_under_the_name_the_ui_knows() {
    let mut log = File::new();
    let reasons = [
        BlockReason::OutsideRoots,
        BlockReason::Denylisted,
        BlockReason::Malformed,
        BlockReason::IsRoot,
        BlockReason::Nested,
        BlockReason::Missing,
        BlockReason::Unreadable,
        BlockReason::KindChanged,
    ];
    let entries = reasons
        .iter()
        .map(|reason| EntryOutcome {
            path: format!("/h/{reason:?}"),
            kind: NodeKind::File,
            result: EntryResult::Skipped { reason: *reason },
        })
        .collect();
    log.append(&batch(Mode::Trash, now(), entries));

    let mut read = log.tail(reasons.len());
    read.reverse();
    assert_eq!(read.len(), reasons.len());
    for (entry, reason) in read.iter().zip(reasons) {
        assert_eq!(entry.detail, Some(wire_name(reason)));
    }
    assert_eq!(read[0].detail.as_deref(), Some("outsideRoots"));
    assert_eq!(read[7].detail.as_deref(), Some("kindChanged"));
}

#[test]
fn every_reason_has_a_name_of_its_own() {
    let names: Vec<(BlockReason, &str)> = vec![
        (BlockReason::OutsideRoots, "outsideRoots"),
        (BlockReason::Denylisted, "denylisted"),
        (BlockReason::Shielded, "shielded"),
        (BlockReason::Malformed, "malformed"),
        (BlockReason::IsRoot, "isRoot"),
        (BlockReason::Nested, "nested"),
        (BlockReason::Missing, "missing"),
        (BlockReason::Unreadable, "unreadable"),
        (BlockReason::KindChanged, "kindChanged"),
        (BlockReason::Kept, "kept"),
    ];
    for (reason, name) in names {
        assert_eq!(wire_name(reason), name);
    }
}

#[test]
fn the_order_in_the_file_wins_over_the_timestamps() {
    let mut log = File::new();
    let first = vec![outcome("/h/written-first", 1)];
    let second = vec![outcome("/h/written-second", 2)];
    log.append(&batch(Mode::Trash, at(1_800_000_000), first));
    log.append(&batch(Mode::Trash, at(1_700_000_000), second));

    let read = log.tail(10);
    assert_eq!(
        read[0].path, "/h/written-second",
        "newest is the last line written, not the largest `at`"
    );
    assert_eq!(read[1].path, "/h/written-first");
    assert_eq!(
        log.tail(1)[0].path,
        "/h/written-second",
        "and the limit keeps the end of the file, not the latest `at`"
    );
}

#[test]
fn the_batch_timestamp_reaches_every_line_unchanged() {
    let mut log = File::new();
    log.append(&batch(Mode::Trash, now(), vec![outcome("/h/a", 1), outcome("/h/b", 2)]));
    let read = log.tail(10);
    assert_eq!(read[0].at, now(), "to the nanosecond");
    assert_eq!(read[1].at, now(), "one instant for the whole batch");
}

#[test]
fn every_entry_of_a_batch_is_written_once_and_in_order() {
    let mut log = File::new();
    let entries = (0..4).map(|i| outcome(&format!("/h/{i}"), 10)).collect();
    log.append(&batch(Mode::Trash, now(), entries));
    assert_eq!(log.lines().len(), 4, "one line per entry, the last one with it");
    assert_eq!(paths(&log.tail(10)), ["/h/3", "/h/2", "/h/1", "/h/0"]);
    assert!(log.tail(0).is_empty(), "a limit of none is none");
}

#[test]
fn a_damaged_line_does_not_consume_a_slot_of_the_limit() {
    let mut log = File::new();
    log.append(&batch(Mode::Trash, now(), vec![outcome("/h/a", 1)]));
    log.text.extend_from_slice(b"} not json at all\n");
    log.append(&batch(Mode::Trash, now(), vec![outcome("/h/b", 1)]));
    log.append(&batch(Mode::Trash, now(), vec![outcome("/h/c", 1)]));
    assert_eq!(
        paths(&log.tail(3)),
        ["/h/c", "/h/b", "/h/a"],
        "three entries, not two and a hole"
    );
}

#[test]
fn a_line_cut_inside_a_character_costs_that_line_and_no_more() {
    let mut log = File::new();
    log.append(&batch(Mode::Trash, now(), vec![outcome("/h/café", 1)]));
    let line = log.lines().pop().unwrap();
    let cut = line.find("caf").unwrap() + "caf".len() + 1;
    log.text.extend_from_slice(&line.as_bytes()[..cut]);

    let read = log.tail(10);
    assert_eq!(read.len(), 1, "the finished line survives the torn one");
    assert_eq!(read[0].path, "/h/café");
}

#[test]
fn an_empty_batch_leaves_no_file_behind() {
    let mut log = File::new();
    log.append(&batch(Mode::Trash, now(), Vec::new()));
    assert!(log.text.is_empty(), "nothing happened, so nothing is recorded");
    assert!(log.tail(10).is_empty());
}

#[test]
fn the_tail_is_the_end_of_all_batches_reversed() {
    let mut log = File::new();
    log.append(&batch(Mode::Trash, now(), vec![outcome("/h/a", 1), outcome("/h/b", 2)]));
    log.text.extend_from_slice(b"not a line of this app\n");
    log.append(&batch(Mode::Permanent, now(), vec![outcome("/h/c", 3)]));
    assert_eq!(paths(&log.tail(0)), Vec::<&str>::new());
    assert_eq!(paths(&log.tail(2)), vec!["/h/c", "/h/b"]);
    assert_eq!(paths(&log.tail(9)), vec!["/h/c", "/h/b", "/h/a"]);
}
