//! The append-only record of everything the app deleted: what its lines say, how they stand
//! in the file, and which of them are read back.
//!
//! One line per entry, because of the two things the file has to survive: a write
//! interrupted halfway, and a reader that only wants the end. Every line of a batch carries
//! the same instant and the same mode, so "newest first" rests on the order of the lines in
//! the file, and never on `at`.

use super::model::{BlockReason, EntryOutcome, EntryResult, EntryResultSpec, Mode, Outcome};
use super::model::Timestamp;
use crate::scan::tree::NodeKind;
use crate::text::{lines_of, opt_text, split_lines, texts, without_return};
use vstd::prelude::*;

verus! {

/// What became of one entry, as the log says it: the verdict alone.
#[derive(Debug, Clone, Copy, PartialEq, Eq, Structural)]
pub enum LogResult {
    Removed,
    Failed,
    Skipped,
}

/// One line: one entry of one batch, readable on its own long after the dialog that
/// produced it.
#[derive(Debug, Clone, PartialEq, Eq)]
pub struct LogEntry {
    /// When the batch began; shared by every line of it.
    pub at: Timestamp,
    pub path: String,
    pub kind: NodeKind,
    /// How the entry left, which is what makes `removed` readable.
    pub mode: Mode,
    pub result: LogResult,
    /// The failure message, or the wire name of the reason a skipped entry was refused;
    /// `None` when the entry was removed and there is nothing to add.
    pub detail: Option<String>,
    /// Bytes freed, and so 0 for anything that was not removed.
    pub bytes: u64,
}

/// The name a [`BlockReason`] has on the wire.
pub open spec fn wire_name_of(reason: BlockReason) -> Seq<char> {
    match reason {
        BlockReason::OutsideRoots => "outsideRoots"@,
        BlockReason::Denylisted => "denylisted"@,
        BlockReason::Shielded => "shielded"@,
        BlockReason::Malformed => "malformed"@,
        BlockReason::IsRoot => "isRoot"@,
        BlockReason::Nested => "nested"@,
        BlockReason::Missing => "missing"@,
        BlockReason::Unreadable => "unreadable"@,
        BlockReason::KindChanged => "kindChanged"@,
        BlockReason::Kept => "kept"@,
    }
}

/// The name a [`BlockReason`] has on the wire (`"outsideRoots"`).
pub fn wire_name(reason: BlockReason) -> (name: String)
    ensures
        name@ == wire_name_of(reason),
{
    let name: &str = match reason {
        BlockReason::OutsideRoots => "outsideRoots",
        BlockReason::Denylisted => "denylisted",
        BlockReason::Shielded => "shielded",
        BlockReason::Malformed => "malformed",
        BlockReason::IsRoot => "isRoot",
        BlockReason::Nested => "nested",
        BlockReason::Missing => "missing",
        BlockReason::Unreadable => "unreadable",
        BlockReason::KindChanged => "kindChanged",
        BlockReason::Kept => "kept",
    };
    name.to_owned()
}

/// What the log says beside the verdict.
pub open spec fn detail_of(result: EntryResultSpec) -> Option<Seq<char>> {
    match result {
        EntryResultSpec::Removed(_) => None,
        EntryResultSpec::Failed(message) => Some(message),
        EntryResultSpec::Skipped(reason) => Some(wire_name_of(reason)),
    }
}

/// The verdict of a result.
pub open spec fn log_result_of(result: EntryResultSpec) -> LogResult {
    match result {
        EntryResultSpec::Removed(_) => LogResult::Removed,
        EntryResultSpec::Failed(_) => LogResult::Failed,
        EntryResultSpec::Skipped(_) => LogResult::Skipped,
    }
}

impl LogEntry {
    /// Whether this is the line for `entry` of a batch that began at `at` and ran in `mode`.
    pub open spec fn records(self, entry: EntryOutcome, at: Timestamp, mode: Mode) -> bool {
        &&& self.at == at
        &&& self.path@ == entry.path@
        &&& self.kind == entry.kind
        &&& self.mode == mode
        &&& self.result == log_result_of(entry.result@)
        &&& opt_text(self.detail) == detail_of(entry.result@)
        &&& self.bytes == super::model::freed_by(entry.result@)
    }

    /// The line for what became of something.
    pub(crate) fn saying(
        path: String,
        kind: NodeKind,
        came_to: &EntryResult,
        at: Timestamp,
        mode: Mode,
    ) -> (line: LogEntry)
        ensures
            line.at == at,
            line.path == path,
            line.kind == kind,
            line.mode == mode,
            line.result == log_result_of(came_to@),
            opt_text(line.detail) == detail_of(came_to@),
            line.bytes == super::model::freed_by(came_to@),
    {
        let (result, detail, bytes): (LogResult, Option<String>, u64) = match came_to {
            EntryResult::Removed { bytes } => (LogResult::Removed, None, *bytes),
            EntryResult::Failed { message } => (LogResult::Failed, Some(message.clone()), 0),
            EntryResult::Skipped { reason } => (LogResult::Skipped, Some(wire_name(*reason)), 0),
        };
        LogEntry { at, path, kind, mode, result, detail, bytes }
    }

    /// The line for one entry of a batch that began at `at` and ran in `mode`.
    pub fn of(entry: &EntryOutcome, at: Timestamp, mode: Mode) -> (line: LogEntry)
        ensures
            line.records(*entry, at, mode),
    {
        LogEntry::saying(entry.path.clone(), entry.kind, &entry.result, at, mode)
    }
}

/// The lines of a batch: one per entry, in their order.
pub fn lines_for(outcome: &Outcome) -> (lines: Vec<LogEntry>)
    ensures
        lines@.len() == outcome.entries@.len(),
        forall|i: int|
            0 <= i < lines@.len() ==> (#[trigger] lines@[i]).records(
                outcome.entries@[i],
                outcome.at,
                outcome.mode,
            ),
{
    let mut lines: Vec<LogEntry> = Vec::new();
    let mut i: usize = 0;
    while i < outcome.entries.len()
        invariant
            i <= outcome.entries.len(),
            lines@.len() == i,
            forall|k: int|
                0 <= k < i ==> (#[trigger] lines@[k]).records(
                    outcome.entries@[k],
                    outcome.at,
                    outcome.mode,
                ),
        decreases outcome.entries.len() - i,
    {
        lines.push(LogEntry::of(&outcome.entries[i], outcome.at, outcome.mode));
        i += 1;
    }
    lines
}

/// Every line with the newline that ends it.
pub open spec fn framed(lines: Seq<Seq<char>>) -> Seq<char>
    decreases lines.len(),
{
    if lines.len() == 0 {
        Seq::empty()
    } else {
        framed(lines.drop_last()) + lines.last().push('\n')
    }
}

/// What is appended to the file for these lines: each with the newline that ends it. Nothing
/// for no lines.
pub fn frame(lines: &Vec<String>) -> (text: String)
    ensures
        text@ == framed(texts(lines@)),
{
    let ghost all = texts(lines@);
    let mut text: String = String::new();
    let mut i: usize = 0;
    assert(all.take(0) =~= Seq::empty());
    while i < lines.len()
        invariant
            i <= lines.len(),
            all == texts(lines@),
            text@ == framed(all.take(i as int)),
        decreases lines.len() - i,
    {
        assert(all.take(i + 1).drop_last() =~= all.take(i as int));
        assert(all.take(i + 1).last() == lines@[i as int]@);
        text.append(&lines[i]);
        text.push('\n');
        assert(framed(all.take(i as int)) + all[i as int].push('\n') =~= (framed(all.take(i as int))
            + all[i as int]).push('\n'));
        i += 1;
    }
    assert(all.take(all.len() as int) =~= all);
    text
}

/// The last of what could be read of the lines, newest first.
pub open spec fn newest(lines: Seq<Option<LogEntry>>, limit: int) -> Seq<LogEntry>
    decreases lines.len(),
{
    if lines.len() == 0 || limit <= 0 {
        Seq::empty()
    } else {
        match lines.last() {
            Some(entry) => seq![entry] + newest(lines.drop_last(), limit - 1),
            None => newest(lines.drop_last(), limit),
        }
    }
}

/// The last `limit` entries, newest first: the end of the file, reversed. `lines` is what
/// each line of the file reads as; a line that cannot be read is skipped and does not use up
/// a slot of `limit`.
pub fn tail(lines: Vec<Option<LogEntry>>, limit: usize) -> (entries: Vec<LogEntry>)
    ensures
        entries@ == newest(lines@, limit as int),
{
    let ghost all = lines@;
    let mut lines: Vec<Option<LogEntry>> = lines;
    let mut entries: Vec<LogEntry> = Vec::new();
    assert(entries@ + newest(all, limit as int) =~= newest(all, limit as int));
    loop
        invariant
            entries@.len() <= limit,
            entries@ + newest(lines@, limit - entries@.len()) == newest(all, limit as int),
        ensures
            entries@ == newest(all, limit as int),
        decreases lines.len(),
    {
        if entries.len() == limit {
            assert(entries@ + Seq::<LogEntry>::empty() =~= entries@);
            break;
        }
        let ghost before = lines@;
        let ghost so_far = entries@;
        match lines.pop() {
            Some(line) => {
                assert(before.drop_last() =~= lines@);
                if let Some(entry) = line {
                    entries.push(entry);
                    assert(so_far + (seq![entry] + newest(lines@, limit - entries@.len())) =~= entries@
                        + newest(lines@, limit - entries@.len()));
                }
            },
            None => {
                assert(entries@ + Seq::<LogEntry>::empty() =~= entries@);
                break;
            },
        }
    }
    entries
}

/// A line that is one line: no newline in it, and no carriage return at its end.
pub open spec fn one_line(line: Seq<char>) -> bool {
    !line.contains('\n') && (line.len() > 0 ==> line.last() != '\r')
}

proof fn split_after(text: Seq<char>, line: Seq<char>)
    requires
        !line.contains('\n'),
        split_lines(text).1 == Seq::<char>::empty(),
    ensures
        split_lines(text + line) == (split_lines(text).0, line),
    decreases line.len(),
{
    if line.len() == 0 {
        assert(text + line =~= text);
        assert(line =~= Seq::empty());
    } else {
        let less = line.drop_last();
        assert(!less.contains('\n')) by {
            if less.contains('\n') {
                let k = choose|k: int| 0 <= k < less.len() && less[k] == '\n';
                assert(line[k] == '\n');
            }
        }
        split_after(text, less);
        assert((text + line).drop_last() =~= text + less);
        assert(line.contains(line.last()));
        assert(less.push(line.last()) =~= line);
    }
}

/// What was appended is read back: the lines of a framed batch are the lines that were
/// framed, each of them being one line.
pub proof fn reading_gives_back_what_was_appended(lines: Seq<Seq<char>>)
    requires
        forall|i: int| 0 <= i < lines.len() ==> one_line(#[trigger] lines[i]),
    ensures
        lines_of(framed(lines)) == lines,
{
    framed_splits(lines);
}

proof fn framed_splits(lines: Seq<Seq<char>>)
    requires
        forall|i: int| 0 <= i < lines.len() ==> one_line(#[trigger] lines[i]),
    ensures
        split_lines(framed(lines)) == (lines, Seq::<char>::empty()),
    decreases lines.len(),
{
    if lines.len() == 0 {
        assert(lines =~= Seq::empty());
    } else {
        let less = lines.drop_last();
        let line = lines[lines.len() - 1];
        assert forall|i: int| 0 <= i < less.len() implies one_line(#[trigger] less[i]) by {
            assert(less[i] == lines[i]);
        }
        framed_splits(less);
        assert(one_line(line));
        split_after(framed(less), line);
        let whole = framed(lines);
        assert(whole =~= (framed(less) + line).push('\n'));
        assert(whole.drop_last() =~= framed(less) + line);
        assert(without_return(line) == line);
        assert(less.push(line) =~= lines);
    }
}

/// A batch that was appended does not touch what was there: the lines of the two follow each
/// other.
pub proof fn appending_keeps_what_was_there(before: Seq<Seq<char>>, after: Seq<Seq<char>>)
    ensures
        framed(before + after) == framed(before) + framed(after),
    decreases after.len(),
{
    if after.len() == 0 {
        assert(before + after =~= before);
        assert(framed(before) + framed(after) =~= framed(before));
    } else {
        appending_keeps_what_was_there(before, after.drop_last());
        assert((before + after).drop_last() =~= before + after.drop_last());
        assert(framed(before) + framed(after) =~= (framed(before) + framed(after.drop_last()))
            + after.last().push('\n'));
    }
}

/// At most as many entries are read as were asked for.
pub proof fn the_tail_has_a_limit(lines: Seq<Option<LogEntry>>, limit: int)
    requires
        0 <= limit,
    ensures
        newest(lines, limit).len() <= limit,
    decreases lines.len(),
{
    if lines.len() > 0 && limit > 0 {
        match lines.last() {
            Some(_) => the_tail_has_a_limit(lines.drop_last(), limit - 1),
            None => the_tail_has_a_limit(lines.drop_last(), limit),
        }
    }
}

/// A line that cannot be read costs nothing but itself.
pub proof fn a_damaged_line_is_skipped(lines: Seq<Option<LogEntry>>, limit: int)
    ensures
        newest(lines.push(None), limit) == newest(lines, limit),
{
    assert(lines.push(None).drop_last() =~= lines);
}

/// The JSONL log at a path.
#[derive(Debug, Clone)]
pub struct ActionLog {
    pub path: String,
}

impl ActionLog {
    pub fn new(path: String) -> (log: ActionLog)
        ensures
            log.path == path,
    {
        ActionLog { path }
    }
}

/// The entries that could be read of the lines, in the order of the lines.
pub open spec fn entries_in(lines: Seq<Option<LogEntry>>) -> Seq<LogEntry>
    decreases lines.len(),
{
    if lines.len() == 0 {
        Seq::empty()
    } else {
        match lines.last() {
            Some(entry) => entries_in(lines.drop_last()).push(entry),
            None => entries_in(lines.drop_last()),
        }
    }
}

/// The last `limit` of `entries`, the last one first.
pub open spec fn last_reversed(entries: Seq<LogEntry>, limit: int) -> Seq<LogEntry> {
    Seq::new(
        if entries.len() <= limit {
            entries.len()
        } else {
            limit as nat
        },
        |k: int| entries[entries.len() - 1 - k],
    )
}

/// The tail of a log are the last entries that can be read, newest line first, whatever their
/// instants: a line that cannot be read uses up no slot.
pub proof fn the_tail_is_the_end_reversed(lines: Seq<Option<LogEntry>>, limit: int)
    requires
        0 <= limit,
    ensures
        newest(lines, limit) == last_reversed(entries_in(lines), limit),
    decreases lines.len(),
{
    if lines.len() > 0 && limit > 0 {
        let less = entries_in(lines.drop_last());
        match lines.last() {
            Some(entry) => {
                the_tail_is_the_end_reversed(lines.drop_last(), limit - 1);
                assert(last_reversed(less.push(entry), limit) =~= seq![entry] + last_reversed(
                    less,
                    limit - 1,
                ));
            },
            None => {
                the_tail_is_the_end_reversed(lines.drop_last(), limit);
            },
        }
    } else {
        assert(newest(lines, limit) =~= last_reversed(entries_in(lines), limit));
    }
}

/// What was appended after something is read after it.
proof fn entries_follow(before: Seq<Option<LogEntry>>, after: Seq<Option<LogEntry>>)
    ensures
        entries_in(before + after) == entries_in(before) + entries_in(after),
    decreases after.len(),
{
    let all = before + after;
    if after.len() == 0 {
        assert(all =~= before);
        assert(entries_in(before) + entries_in(after) =~= entries_in(before));
    } else {
        assert(all.drop_last() =~= before + after.drop_last());
        entries_follow(before, after.drop_last());
        assert(entries_in(all) =~= entries_in(before) + entries_in(after));
    }
}

/// The batches `batches` one after the other.
pub open spec fn in_a_row(batches: Seq<Seq<LogEntry>>) -> Seq<LogEntry>
    decreases batches.len(),
{
    if batches.len() == 0 {
        Seq::empty()
    } else {
        in_a_row(batches.drop_last()) + batches.last()
    }
}

/// The lines of several appends one after the other.
pub open spec fn lines_in_a_row(appends: Seq<Seq<Seq<char>>>) -> Seq<Seq<char>>
    decreases appends.len(),
{
    if appends.len() == 0 {
        Seq::empty()
    } else {
        lines_in_a_row(appends.drop_last()) + appends.last()
    }
}

/// What the file holds after several appends to a file that was not there.
pub open spec fn appended(appends: Seq<Seq<Seq<char>>>) -> Seq<char>
    decreases appends.len(),
{
    if appends.len() == 0 {
        Seq::empty()
    } else {
        appended(appends.drop_last()) + framed(appends.last())
    }
}

proof fn appends_are_one(appends: Seq<Seq<Seq<char>>>)
    ensures
        appended(appends) == framed(lines_in_a_row(appends)),
    decreases appends.len(),
{
    if appends.len() > 0 {
        appends_are_one(appends.drop_last());
        appending_keeps_what_was_there(lines_in_a_row(appends.drop_last()), appends.last());
    }
}

proof fn appends_read(
    appends: Seq<Seq<Seq<char>>>,
    batches: Seq<Seq<LogEntry>>,
    read: spec_fn(Seq<char>) -> Option<LogEntry>,
)
    requires
        appends.len() == batches.len(),
        forall|i: int|
            0 <= i < appends.len() ==> entries_in((#[trigger] appends[i]).map_values(read))
                == batches[i],
    ensures
        entries_in(lines_in_a_row(appends).map_values(read)) == in_a_row(batches),
    decreases appends.len(),
{
    if appends.len() > 0 {
        let less = appends.drop_last();
        assert forall|i: int| 0 <= i < less.len() implies entries_in(
            (#[trigger] less[i]).map_values(read),
        ) == batches.drop_last()[i] by {
            assert(less[i] == appends[i]);
        }
        appends_read(less, batches.drop_last(), read);
        let a = lines_in_a_row(less).map_values(read);
        let b = appends.last().map_values(read);
        assert(lines_in_a_row(appends).map_values(read) =~= a + b);
        entries_follow(a, b);
        assert(appends[appends.len() - 1] == appends.last());
    } else {
        assert(lines_in_a_row(appends).map_values(read) =~= Seq::empty());
    }
}

/// What batches were recorded as is read back, newest first: of a file that was not there,
/// after appends whose lines read as the entries of `batches`, the tail are the last entries
/// of all of them, reversed. `read` is how a line reads; an append may hold lines that read
/// as nothing, and nothing is lost by them.
pub proof fn what_was_recorded_is_read_newest_first(
    appends: Seq<Seq<Seq<char>>>,
    batches: Seq<Seq<LogEntry>>,
    read: spec_fn(Seq<char>) -> Option<LogEntry>,
    limit: int,
)
    requires
        0 <= limit,
        appends.len() == batches.len(),
        forall|i: int| 0 <= i < lines_in_a_row(appends).len() ==> one_line(
            #[trigger] lines_in_a_row(appends)[i],
        ),
        forall|i: int|
            0 <= i < appends.len() ==> entries_in((#[trigger] appends[i]).map_values(read))
                == batches[i],
    ensures
        newest(lines_of(appended(appends)).map_values(read), limit) == last_reversed(
            in_a_row(batches),
            limit,
        ),
{
    appends_are_one(appends);
    reading_gives_back_what_was_appended(lines_in_a_row(appends));
    appends_read(appends, batches, read);
    the_tail_is_the_end_reversed(lines_in_a_row(appends).map_values(read), limit);
}

} // verus!
