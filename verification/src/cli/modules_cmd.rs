//! `storage-monitor modules`: the cleanup modules of this build, and what one of them finds.
//! Both subcommands only look.

use crate::cli::report::{human_bytes, human_bytes_of};
use crate::module::{Availability, Descriptor, Item, Level, Reason, Size};
use crate::text::{align_left, align_right, at_left, at_right, opt_text, same, spaces};
use crate::text::{string_up, strung, texts};
use vstd::prelude::*;

verus! {

/// The ids of several modules.
pub open spec fn ids_of(modules: Seq<Descriptor>) -> Seq<Seq<char>> {
    modules.map_values(|module: Descriptor| module.id@)
}

/// What is said of a module this build does not have.
pub open spec fn unknown_module(id: Seq<char>, known: Seq<Seq<char>>) -> Seq<char> {
    if known.len() == 0 {
        "unknown module "@ + id + ": this build ships no cleanup modules"@
    } else {
        "unknown module "@ + id + "; this build has: "@ + strung(known, ", "@)
    }
}

/// The first module with this id, or an error that names the ones there are.
pub fn find(modules: &Vec<Descriptor>, id: &str) -> (found: Result<usize, String>)
    ensures
        match found {
            Ok(at) => at < modules@.len() && modules@[at as int].id@ == id@ && forall|i: int|
                0 <= i < at ==> (#[trigger] modules@[i]).id@ != id@,
            Err(message) => !ids_of(modules@).contains(id@) && message@ == unknown_module(
                id@,
                ids_of(modules@),
            ),
        },
{
    let mut i: usize = 0;
    let mut known: Vec<String> = Vec::new();
    while i < modules.len()
        invariant
            i <= modules.len(),
            known@.len() == i,
            forall|k: int| 0 <= k < i ==> (#[trigger] modules@[k]).id@ != id@,
            forall|k: int| 0 <= k < i ==> (#[trigger] known@[k])@ == modules@[k].id@,
        decreases modules.len() - i,
    {
        if same(&modules[i].id, id) {
            return Ok(i);
        }
        known.push(modules[i].id.clone());
        i += 1;
    }
    assert(texts(known@) =~= ids_of(modules@));
    assert(texts(known@).skip(0) =~= texts(known@));
    assert forall|k: int| 0 <= k < modules@.len() implies ids_of(modules@)[k] != id@ by {
        assert(modules@[k].id@ != id@);
    }
    let mut message: String = "unknown module ".to_owned();
    message.append(id);
    if known.len() == 0 {
        message.append(": this build ships no cleanup modules");
    } else {
        message.append("; this build has: ");
        message.append(&string_up(&known, 0, ", "));
    }
    Err(message)
}

/// The word for a level.
pub open spec fn level_name(level: Level) -> Seq<char> {
    match level {
        Level::Safe => "safe"@,
        Level::Review => "review"@,
        Level::Keep => "keep"@,
    }
}

/// The word for a level.
pub fn level(given: Level) -> (name: String)
    ensures
        name@ == level_name(given),
{
    match given {
        Level::Safe => "safe".to_owned(),
        Level::Review => "review".to_owned(),
        Level::Keep => "keep".to_owned(),
    }
}

/// One module as `modules list` reports it.
#[derive(Debug)]
pub struct ModuleReport {
    pub id: String,
    pub name: String,
    pub description: String,
    pub tools: Vec<String>,
    pub available: bool,
    /// Why it cannot run here, when it cannot.
    pub reason: Option<String>,
}

/// The report of one module.
pub fn report_module(descriptor: &Descriptor, availability: Availability) -> (report: ModuleReport)
    ensures
        report.id@ == descriptor.id@,
        report.name@ == descriptor.name@,
        report.description@ == descriptor.description@,
        texts(report.tools@) == texts(descriptor.tools@),
        report.available == availability is Available,
        opt_text(report.reason) == match availability {
            Availability::Available => None,
            Availability::Unavailable { reason } => Some(reason@),
        },
{
    let reason: Option<String> = match availability {
        Availability::Available => None,
        Availability::Unavailable { reason } => Some(reason),
    };
    ModuleReport {
        id: descriptor.id.clone(),
        name: descriptor.name.clone(),
        description: descriptor.description.clone(),
        tools: crate::text::copy_all(&descriptor.tools),
        available: reason.is_none(),
        reason,
    }
}

/// The two lines of a module in `modules list`.
pub fn list_lines(report: &ModuleReport) -> (lines: (String, String))
    ensures
        lines.0@ == report.id@ + "\t"@ + report.name@ + "\t"@ + match report.reason {
            None => "available"@,
            Some(reason) => "unavailable: "@ + reason@,
        },
        lines.1@ == "\t"@ + report.description@,
{
    let mut first: String = report.id.clone();
    first.append("\t");
    first.append(&report.name);
    first.append("\t");
    match &report.reason {
        None => {
            first.append("available");
        },
        Some(reason) => {
            let ghost so_far = first@;
            first.append("unavailable: ");
            first.append(reason);
            assert(first@ =~= so_far + ("unavailable: "@ + reason@));
        },
    }
    let mut second: String = "\t".to_owned();
    second.append(&report.description);
    (first, second)
}

/// What is said of a module that cannot run here.
pub fn cannot_run(id: &str, reason: &str) -> (text: String)
    ensures
        text@ == "the "@ + id@ + " module cannot run here: "@ + reason@,
{
    let mut text: String = "the ".to_owned();
    text.append(id);
    text.append(" module cannot run here: ");
    text.append(reason);
    text
}

/// What is said of a module that could not look around.
pub fn could_not_look(id: &str, error: &str) -> (text: String)
    ensures
        text@ == "the "@ + id@ + " module could not look around: "@ + error@,
{
    let mut text: String = "the ".to_owned();
    text.append(id);
    text.append(" module could not look around: ");
    text.append(error);
    text
}

/// A size for people, marked where it is an estimate.
pub open spec fn size_text_of(size: Size) -> Seq<char> {
    if size.estimated {
        "~"@ + human_bytes_of(size.bytes)
    } else {
        human_bytes_of(size.bytes)
    }
}

/// A size for people, marked where it is an estimate.
pub fn size_text(size: Size) -> (text: String)
    ensures
        text@ == size_text_of(size),
{
    if size.estimated {
        let mut text: String = "~".to_owned();
        text.append(&human_bytes(size.bytes));
        text
    } else {
        human_bytes(size.bytes)
    }
}

/// The first line of an item in `modules run`: its level, its size and its title.
pub open spec fn item_line_of(item: Item) -> Seq<char> {
    at_left(level_name(item.verdict.level), 6) + "  "@ + at_right(size_text_of(item.size), 9)
        + "  "@ + item.title@
}

/// The lines of an item in `modules run`: it, and why its verdict is what it is.
pub open spec fn item_lines_of(item: Item) -> Seq<Seq<char>> {
    seq![item_line_of(item)] + item.verdict.reasons@.map_values(
        |reason: Reason| spaces(19) + reason.text@,
    )
}

/// The lines of the first `k` items in `modules run`.
pub open spec fn run_lines_of(items: Seq<Item>, k: nat) -> Seq<Seq<char>>
    decreases k,
{
    if k == 0 {
        Seq::empty()
    } else {
        run_lines_of(items, (k - 1) as nat) + item_lines_of(items[k - 1])
    }
}

fn item_lines(item: &Item) -> (lines: Vec<String>)
    ensures
        texts(lines@) == item_lines_of(*item),
{
    let mut first: String = align_left(&level(item.verdict.level), 6);
    first.append("  ");
    first.append(&align_right(&size_text(item.size), 9));
    first.append("  ");
    first.append(&item.title);
    let mut lines: Vec<String> = Vec::new();
    lines.push(first);
    let ghost head = seq![item_line_of(*item)];
    let ghost reasons = item.verdict.reasons@.map_values(
        |reason: Reason| spaces(19) + reason.text@,
    );
    let mut i: usize = 0;
    assert(texts(lines@) =~= head + reasons.take(0));
    while i < item.verdict.reasons.len()
        invariant
            i <= item.verdict.reasons.len(),
            reasons == item.verdict.reasons@.map_values(
                |reason: Reason| spaces(19) + reason.text@,
            ),
            texts(lines@) == head + reasons.take(i as int),
        decreases item.verdict.reasons.len() - i,
    {
        let ghost before = lines@;
        let mut line: String = align_left("", 19);
        proof {
            reveal_strlit("");
            assert(line@ =~= spaces(19));
        }
        line.append(&item.verdict.reasons[i].text);
        lines.push(line);
        assert(texts(lines@) =~= texts(before).push(line@));
        assert(head + reasons.take(i + 1) =~= (head + reasons.take(i as int)).push(
            reasons[i as int],
        ));
        i += 1;
    }
    assert(reasons.take(reasons.len() as int) =~= reasons);
    lines
}

/// What `modules run` says of the items a module found.
pub fn run_lines(items: &Vec<Item>) -> (lines: Vec<String>)
    ensures
        texts(lines@) == run_lines_of(items@, items@.len()),
{
    let mut lines: Vec<String> = Vec::new();
    let mut i: usize = 0;
    assert(texts(lines@) =~= Seq::empty());
    while i < items.len()
        invariant
            i <= items.len(),
            texts(lines@) == run_lines_of(items@, i as nat),
        decreases items.len() - i,
    {
        let ghost before = lines@;
        let mut more: Vec<String> = item_lines(&items[i]);
        let ghost added = more@;
        lines.append(&mut more);
        assert(texts(lines@) =~= texts(before) + texts(added));
        i += 1;
    }
    lines
}

} // verus!
