//! `storage-monitor scan`: scan a folder and report where the space goes.

use super::report::{human_bytes, human_bytes_of, ReportNode, ScanReport};
use crate::disk::DiskUsage;
use crate::scan::tree::NodeKind;
use crate::snapshot::delta::{changes, comparable, delta_views, deltas, growers_of, top_growers};
use crate::snapshot::delta::Delta;
use crate::snapshot::model::{entry_views, Snapshot};
use crate::text::{align_right, at_right, chars_of, decimal, decimal_text, from_chars, texts};
use crate::window::cleanup::need_home;
use vstd::prelude::*;

verus! {

/// Exit code of a scan that was cancelled.
pub const EXIT_CANCELLED: u8 = 130;

/// Snapshots a saved scan leaves in the store.
pub const SNAPSHOTS_KEPT: usize = 10;

/// Growers a saved scan reports.
pub const GROWERS_REPORTED: usize = 20;

/// What `storage-monitor scan` was asked for.
#[derive(Debug, Clone, PartialEq, Eq)]
pub struct ScanArgs {
    pub root: Option<String>,
    pub json: bool,
    pub depth: usize,
    pub top: usize,
    pub save: bool,
    pub threshold: u64,
}

/// The folder that is scanned: the one asked for, once it is resolved, or the home folder.
pub fn root_to_scan(resolved: Option<Result<String, String>>, home: Option<&str>) -> (root: Result<
    String,
    String,
>)
    ensures
        match (resolved, home, root) {
            (Some(Ok(resolved)), _, Ok(root)) => root == resolved,
            (Some(Err(error)), _, Err(message)) => message == error,
            (None, Some(home), Ok(root)) => root@ == home@,
            (None, None, Err(message)) => message@ == "cannot determine the home folder"@,
            _ => false,
        },
{
    match resolved {
        Some(resolved) => resolved,
        None => need_home(home),
    }
}

/// What is said of a root that cannot be resolved.
pub fn cannot_resolve(root: &str, error: &str) -> (text: String)
    ensures
        text@ == "cannot resolve "@ + root@ + ": "@ + error@,
{
    let mut text: String = "cannot resolve ".to_owned();
    text.append(root);
    text.append(": ");
    text.append(error);
    text
}

/// What grew since the previous snapshot; nothing without one.
pub fn growth_since(previous: &Option<Snapshot>, current: &Snapshot) -> (growers: Vec<Delta>)
    requires
        previous matches Some(before) ==> comparable(before.entries@) && comparable(
            current.entries@,
        ),
    ensures
        match *previous {
            Some(before) => delta_views(growers@) == growers_of(
                changes(entry_views(before.entries@), entry_views(current.entries@)),
                GROWERS_REPORTED as int,
            ),
            None => growers@.len() == 0,
        },
{
    match previous {
        Some(before) => {
            let changed: Vec<Delta> = deltas(before, current);
            top_growers(&changed, GROWERS_REPORTED)
        },
        None => Vec::new(),
    }
}

/// How the program ends after a scan.
pub fn exit_code(cancelled: bool) -> (code: u8)
    ensures
        code == if cancelled {
            EXIT_CANCELLED
        } else {
            0
        },
{
    if cancelled {
        EXIT_CANCELLED
    } else {
        0
    }
}

/// A path in at most `max` characters: the end of a longer one behind an ellipsis.
pub open spec fn shortened(path: Seq<char>, max: int) -> Seq<char> {
    if path.len() <= max {
        path
    } else if max <= 0 {
        seq!['…']
    } else {
        seq!['…'] + path.skip(path.len() - max + 1)
    }
}

/// A path in at most `max` characters: the end of a longer one behind an ellipsis, which
/// stands even where there is room for nothing else.
pub fn shorten(path: &str, max: usize) -> (short: String)
    ensures
        short@ == shortened(path@, max as int),
{
    let chars: Vec<char> = chars_of(path);
    if chars.len() <= max {
        return path.to_owned();
    }
    let mut short: String = String::new();
    short.push('…');
    assert(short@ =~= seq!['…']);
    if max > 0 {
        let end: String = from_chars(&chars, chars.len() - max + 1, chars.len());
        short.append(&end);
        assert(short@ =~= seq!['…'] + path@.skip(path@.len() - max + 1));
    }
    short
}

/// The first line of a report: what was scanned, and what the scan met.
pub open spec fn header_of(report: ScanReport, seconds: Seq<char>) -> Seq<char> {
    report.root@ + "  "@ + human_bytes_of(report.tree.size) + "  ("@ + decimal_text(
        report.stats.files as nat,
    ) + " files, "@ + decimal_text(report.stats.dirs as nat) + " dirs, "@ + decimal_text(
        report.stats.errors as nat,
    ) + " errors, "@ + seconds + "s)"@
}

/// The line about the volume.
pub open spec fn volume_line_of(disk: DiskUsage) -> Seq<char> {
    "volume: "@ + human_bytes_of(disk.used) + " used of "@ + human_bytes_of(disk.total) + " ("@
        + human_bytes_of(disk.available) + " available)"@
}

/// The line about one entry of the scanned folder, which has `share` percent of it.
pub open spec fn child_line_of(child: ReportNode, share: Seq<char>) -> Seq<char> {
    at_right(human_bytes_of(child.size), 10) + "  "@ + at_right(share, 5) + "%  "@ + child.name@
        + if child.kind == NodeKind::Dir {
        "/"@
    } else {
        ""@
    }
}

/// The line about something that grew.
pub open spec fn grower_line_of(grower: Delta) -> Seq<char> {
    let grown: u64 = if grower.delta > 0 {
        grower.delta as u64
    } else {
        0
    };
    at_right("+"@ + human_bytes_of(grown), 10) + "  "@ + grower.path@
}

/// The lines of a report.
pub open spec fn report_lines_of(
    report: ScanReport,
    seconds: Seq<char>,
    shares: Seq<Seq<char>>,
) -> Seq<Seq<char>> {
    let volume = match report.disk {
        Some(disk) => seq![volume_line_of(disk)],
        None => Seq::empty(),
    };
    let children = Seq::new(
        report.tree.children@.len(),
        |i: int| child_line_of(report.tree.children@[i], shares[i]),
    );
    let growers = if report.top_growers@.len() == 0 {
        Seq::empty()
    } else {
        seq![""@, "grew since the previous snapshot:"@] + report.top_growers@.map_values(
            |grower: Delta| grower_line_of(grower),
        )
    };
    seq![header_of(report, seconds)] + volume + children + growers
}

fn header(report: &ScanReport, seconds: &str) -> (line: String)
    ensures
        line@ == header_of(*report, seconds@),
{
    let mut line: String = report.root.clone();
    line.append("  ");
    line.append(&human_bytes(report.tree.size));
    line.append("  (");
    line.append(&decimal(report.stats.files));
    line.append(" files, ");
    line.append(&decimal(report.stats.dirs));
    line.append(" dirs, ");
    line.append(&decimal(report.stats.errors));
    line.append(" errors, ");
    line.append(seconds);
    line.append("s)");
    line
}

fn volume_line(disk: &DiskUsage) -> (line: String)
    ensures
        line@ == volume_line_of(*disk),
{
    let mut line: String = "volume: ".to_owned();
    line.append(&human_bytes(disk.used));
    line.append(" used of ");
    line.append(&human_bytes(disk.total));
    line.append(" (");
    line.append(&human_bytes(disk.available));
    line.append(" available)");
    line
}

fn child_line(child: &ReportNode, share: &str) -> (line: String)
    ensures
        line@ == child_line_of(*child, share@),
{
    let mut line: String = align_right(&human_bytes(child.size), 10);
    line.append("  ");
    line.append(&align_right(share, 5));
    line.append("%  ");
    line.append(&child.name);
    if child.kind == NodeKind::Dir {
        line.append("/");
    } else {
        line.append("");
    }
    line
}

fn grower_line(grower: &Delta) -> (line: String)
    ensures
        line@ == grower_line_of(*grower),
{
    let grown: u64 = if grower.delta > 0 {
        grower.delta as u64
    } else {
        0
    };
    let mut amount: String = "+".to_owned();
    amount.append(&human_bytes(grown));
    let mut line: String = align_right(&amount, 10);
    line.append("  ");
    line.append(&grower.path);
    line
}

/// The report as text, line by line. The seconds the scan took and the percent of every entry
/// come in as they are written, to one digit.
pub fn report_lines(report: &ScanReport, seconds: &str, shares: &Vec<String>) -> (lines: Vec<String>)
    requires
        shares@.len() == report.tree.children@.len(),
    ensures
        texts(lines@) == report_lines_of(*report, seconds@, texts(shares@)),
{
    let mut lines: Vec<String> = Vec::new();
    lines.push(header(report, seconds));
    let ghost mut so_far = seq![header_of(*report, seconds@)];
    assert(texts(lines@) =~= so_far);
    if let Some(disk) = &report.disk {
        let ghost before = lines@;
        lines.push(volume_line(disk));
        proof {
            assert(texts(lines@) =~= texts(before).push(volume_line_of(*disk)));
            so_far = so_far + seq![volume_line_of(*disk)];
            assert(texts(lines@) =~= so_far);
        }
    }
    let ghost top = so_far;
    let ghost children = Seq::new(
        report.tree.children@.len(),
        |i: int| child_line_of(report.tree.children@[i], texts(shares@)[i]),
    );
    let mut i: usize = 0;
    assert(top + children.take(0) =~= top);
    while i < report.tree.children.len()
        invariant
            i <= report.tree.children.len() == shares.len(),
            children == Seq::new(
                report.tree.children@.len(),
                |i: int| child_line_of(report.tree.children@[i], texts(shares@)[i]),
            ),
            texts(lines@) == top + children.take(i as int),
        decreases report.tree.children.len() - i,
    {
        let ghost before = lines@;
        let line: String = child_line(&report.tree.children[i], &shares[i]);
        lines.push(line);
        assert(texts(lines@) =~= texts(before).push(line@));
        assert(children.take(i + 1) =~= children.take(i as int).push(children[i as int]));
        assert(top + children.take(i + 1) =~= (top + children.take(i as int)).push(
            children[i as int],
        ));
        i += 1;
    }
    assert(children.take(children.len() as int) =~= children);
    let ghost middle = top + children;
    if report.top_growers.len() > 0 {
        let ghost head = seq![""@, "grew since the previous snapshot:"@];
        let ghost growers = report.top_growers@.map_values(|grower: Delta| grower_line_of(grower));
        let ghost before = lines@;
        lines.push("".to_owned());
        lines.push("grew since the previous snapshot:".to_owned());
        assert(texts(lines@) =~= texts(before) + head);
        let mut g: usize = 0;
        assert(middle + head + growers.take(0) =~= middle + head);
        while g < report.top_growers.len()
            invariant
                g <= report.top_growers.len(),
                growers == report.top_growers@.map_values(
                    |grower: Delta| grower_line_of(grower),
                ),
                texts(lines@) == middle + head + growers.take(g as int),
            decreases report.top_growers.len() - g,
        {
            let ghost before = lines@;
            let line: String = grower_line(&report.top_growers[g]);
            lines.push(line);
            assert(texts(lines@) =~= texts(before).push(line@));
            assert(middle + head + growers.take(g + 1) =~= (middle + head + growers.take(
                g as int,
            )).push(growers[g as int]));
            g += 1;
        }
        assert(growers.take(growers.len() as int) =~= growers);
        assert(middle + head + growers =~= middle + (head + growers));
    }
    assert(texts(lines@) =~= report_lines_of(*report, seconds@, texts(shares@)));
    lines
}

} // verus!
