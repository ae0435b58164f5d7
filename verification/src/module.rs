//! The contract a cleanup module implements.
//!
//! A module finds things and judges them; it never removes anything. Asked how to remove an
//! item, it answers with [`Step`]s, and the cleanup engine runs those through the guards, so
//! no module can reach a path the guards refuse, run a command the user was not shown, or
//! skip the record.

pub mod item;
pub mod laws;
pub mod plans;
pub mod step;

use crate::action::engine::SystemError;
use crate::action::model::Mode;
use crate::text::{chars_of, copy_all, copy_opt, from_chars, opt_text};
use crate::text::{lines_in, lines_of, signed, signed_text, string_up, strung, texts, trim, trim_of};
use step::{copy_pairs, line_of, pairs, step_views, CommandSpec, StepSpec};
use vstd::prelude::*;
use vstd::utf8::{decode_utf8, valid_utf8};

pub use item::{ActionOption, ActionSpec, Fact, FactValue, Item, Level, Reason, Size, Verdict};
pub use plans::{PlanLine, Plans};
pub use step::{command_line, Command, Effect, Step, Target};

verus! {

/// How long a command a module runs while looking around may take, in seconds. Discovery
/// reads; a minute is long enough for a busy engine and short enough that a hung daemon does
/// not leave the screen discovering for ever.
pub const DISCOVERY_TIMEOUT: u64 = 60;

/// Who a module is.
#[derive(Debug, Clone, PartialEq, Eq)]
pub struct Descriptor {
    /// The prefix of its item ids, and its key everywhere else.
    pub id: String,
    pub name: String,
    pub description: String,
    /// The tools it looks for when asked whether it can work here.
    pub tools: Vec<String>,
}

/// Whether a module can work here.
#[derive(Debug, Clone, PartialEq, Eq)]
pub enum Availability {
    Available,
    /// With a sentence for the user: "`docker` is not installed".
    Unavailable { reason: String },
}

/// A cleanup module, as far as planning goes.
pub trait Module {
    /// What the module plans: a plain function of the arguments of [`Module::plan`].
    spec fn planned(
        &self,
        item: Item,
        action: ActionSpec,
        options: Seq<Seq<char>>,
        mode: Mode,
    ) -> Seq<StepSpec>;

    /// The steps that carry out `action` on `item` in `mode`, with the ids of the options
    /// turned on.
    ///
    /// A plain function of its arguments: no clock, nothing to look at. The caller has
    /// already checked that the item offers the action and that every option belongs to it.
    /// An empty plan is a bug in the module, and the entry is refused rather than called
    /// done.
    fn plan(&self, item: &Item, action: &ActionSpec, options: &Vec<String>, mode: Mode) -> (steps:
        Vec<Step>)
        ensures
            step_views(steps@) == self.planned(*item, *action, texts(options@), mode),
    ;
}

/// What a program that ran left behind.
#[derive(Debug, Clone, PartialEq, Eq)]
pub struct Output {
    /// The exit code; `None` when a signal ended it.
    pub status: Option<i32>,
    pub stdout: Vec<u8>,
    pub stderr: Vec<u8>,
}

impl Output {
    /// Whether it exited with 0.
    pub fn success(&self) -> (r: bool)
        ensures
            r == (self.status == Some(0i32)),
    {
        match self.status {
            Some(code) => code == 0,
            None => false,
        }
    }
}

/// A program to start: the command with its tool located.
#[derive(Debug, Clone, PartialEq, Eq)]
pub struct Invocation {
    pub program: String,
    pub args: Vec<String>,
    pub cwd: Option<String>,
    pub env: Vec<(String, String)>,
    /// In seconds.
    pub timeout: u64,
}

/// Whether `started` is `command` by the program that was located for it.
pub open spec fn starts(started: Invocation, command: CommandSpec, program: Seq<char>, timeout: u64) -> bool {
    &&& started.program@ == program
    &&& texts(started.args@) == command.args
    &&& opt_text(started.cwd) == command.cwd
    &&& pairs(started.env@) == command.env
    &&& started.timeout == timeout
}

/// The command by the program that was located for it.
pub fn invocation(command: &Command, program: String, timeout: u64) -> (started: Invocation)
    ensures
        starts(started, command@, program@, timeout),
{
    Invocation {
        program,
        args: copy_all(&command.args),
        cwd: copy_opt(&command.cwd),
        env: copy_pairs(&command.env),
        timeout,
    }
}

/// Why a discovery could not finish.
#[derive(Debug, Clone, PartialEq, Eq)]
pub enum ModuleError {
    ToolMissing(String),
    Failed {
        command: String,
        /// "exited with 3", "was killed by a signal".
        ending: String,
        stderr: String,
    },
    System(SystemError),
    Io { path: String, source: String },
    Other(String),
}

/// What is said of a [`ModuleError`].
pub open spec fn module_error_text(error: ModuleError) -> Seq<char> {
    match error {
        ModuleError::ToolMissing(tool) => not_installed(tool@),
        ModuleError::Failed { command, ending, stderr } => "`"@ + command@ + "` "@ + ending@ + ": "@
            + stderr@,
        ModuleError::System(error) => error.message@,
        ModuleError::Io { path, source } => "cannot read "@ + path@ + ": "@ + source@,
        ModuleError::Other(text) => text@,
    }
}

/// What is said of a tool that is not there.
pub open spec fn not_installed(tool: Seq<char>) -> Seq<char> {
    "`"@ + tool + "` is not installed"@
}

/// What is said of a tool that is not there.
pub fn missing_tool(tool: &str) -> (text: String)
    ensures
        text@ == not_installed(tool@),
{
    let mut text: String = "`".to_owned();
    text.append(tool);
    text.append("` is not installed");
    text
}

impl ModuleError {
    /// What is said of it.
    pub fn message(&self) -> (text: String)
        ensures
            text@ == module_error_text(*self),
    {
        match self {
            ModuleError::ToolMissing(tool) => missing_tool(tool),
            ModuleError::Failed { command, ending, stderr } => {
                let mut text: String = "`".to_owned();
                text.append(command);
                text.append("` ");
                text.append(ending);
                text.append(": ");
                text.append(stderr);
                text
            },
            ModuleError::System(error) => error.message.clone(),
            ModuleError::Io { path, source } => {
                let mut text: String = "cannot read ".to_owned();
                text.append(path);
                text.append(": ");
                text.append(source);
                text
            },
            ModuleError::Other(text) => text.clone(),
        }
    }
}

/// What is started to look around: the tool where it was located and the
/// [`DISCOVERY_TIMEOUT`]; a missing tool is an error that names it.
pub fn prepare_run(command: &Command, program: Option<String>) -> (started: Result<
    Invocation,
    ModuleError,
>)
    ensures
        match (program, started) {
            (Some(program), Ok(started)) => starts(
                started,
                command@,
                program@,
                DISCOVERY_TIMEOUT,
            ),
            (None, Err(ModuleError::ToolMissing(tool))) => tool@ == command.tool@,
            _ => false,
        },
{
    match program {
        Some(program) => Ok(invocation(command, program, DISCOVERY_TIMEOUT)),
        None => Err(ModuleError::ToolMissing(command.tool.clone())),
    }
}

/// What looking around with a command gave: the output, whatever it says. A non-zero exit is
/// an [`Output`] like any other; [`run_ok`] is the one that minds.
pub fn run(ran: Result<Output, SystemError>) -> (output: Result<Output, ModuleError>)
    ensures
        match (ran, output) {
            (Ok(given), Ok(output)) => output == given,
            (Err(given), Err(ModuleError::System(error))) => error == given,
            _ => false,
        },
{
    match ran {
        Ok(output) => Ok(output),
        Err(error) => Err(ModuleError::System(error)),
    }
}

/// What looking around with a command gave, with anything but exit 0 turned into an error
/// that carries the command, how it ended and the end of what it wrote to stderr.
pub fn run_ok(command: &Command, ran: Result<Output, SystemError>) -> (output: Result<
    Output,
    ModuleError,
>)
    ensures
        match (ran, output) {
            (Ok(given), Ok(output)) => output == given && given.status == Some(0i32),
            (Ok(given), Err(ModuleError::Failed { command: line, ending, stderr })) => {
                &&& given.status != Some(0i32)
                &&& line@ == line_of(command@)
                &&& ending@ == ending_text(given.status)
                &&& stderr@ == tail_of(lossy_text(given.stderr@))
            },
            (Err(given), Err(ModuleError::System(error))) => error == given,
            _ => false,
        },
{
    match run(ran) {
        Err(error) => Err(error),
        Ok(output) => if output.success() {
            Ok(output)
        } else {
            Err(
                ModuleError::Failed {
                    command: command.line(),
                    ending: ending(output.status),
                    stderr: stderr_tail(output.stderr.as_slice()),
                },
            )
        },
    }
}

/// How a program ended, in words.
pub open spec fn ending_text(status: Option<i32>) -> Seq<char> {
    match status {
        Some(code) => "exited with "@ + signed_text(code as int),
        None => "was killed by a signal"@,
    }
}

/// How a program ended, in words: "exited with 3", or "was killed by a signal" when no code
/// came back.
pub fn ending(status: Option<i32>) -> (text: String)
    ensures
        text@ == ending_text(status),
{
    match status {
        Some(code) => {
            let mut text: String = "exited with ".to_owned();
            text.append(&signed(code as i64));
            text
        },
        None => "was killed by a signal".to_owned(),
    }
}

/// What `String::from_utf8_lossy` reads in bytes.
pub uninterp spec fn lossy_text(bytes: Seq<u8>) -> Seq<char>;

/// `String::from_utf8_lossy`: the text of the bytes, which for valid UTF-8 is the text they
/// encode. Which replacement characters stand for bytes that are not valid is left unsaid.
#[verifier::external_body]
fn read_lossy(bytes: &[u8]) -> (text: String)
    ensures
        text@ == lossy_text(bytes@),
        valid_utf8(bytes@) ==> text@ == decode_utf8(bytes@),
{
    String::from_utf8_lossy(bytes).into_owned()
}

/// How many lines of stderr are quoted.
const QUOTED_LINES: usize = 3;

/// How many characters of stderr are quoted.
const QUOTED_CHARS: usize = 500;

/// The lines that say something, without the white space around them.
pub open spec fn said(lines: Seq<Seq<char>>) -> Seq<Seq<char>>
    decreases lines.len(),
{
    if lines.len() == 0 {
        Seq::empty()
    } else {
        let before = said(lines.drop_last());
        let last = trim_of(lines.last());
        if last.len() == 0 {
            before
        } else {
            before.push(last)
        }
    }
}

/// The last three of several lines.
pub open spec fn last_lines(lines: Seq<Seq<char>>) -> Seq<Seq<char>> {
    if lines.len() <= 3 {
        lines
    } else {
        lines.skip(lines.len() - 3)
    }
}

/// A text cut to its last 499 characters behind an ellipsis, if it has more than 500.
pub open spec fn cut_to_end(text: Seq<char>) -> Seq<char> {
    if text.len() <= 500 {
        text
    } else {
        seq!['…'] + text.skip(text.len() - 499)
    }
}

/// What a failure message quotes of a text: the last three lines that say anything, joined,
/// at most 500 characters.
pub open spec fn tail_of(text: Seq<char>) -> Seq<char> {
    cut_to_end(strung(last_lines(said(lines_of(text))), " / "@))
}

/// What a failure message quotes of stderr: the last three lines that say anything, joined,
/// at most 500 characters. The end, because that is where a tool says what went wrong.
pub fn stderr_tail(stderr: &[u8]) -> (tail: String)
    ensures
        tail@ == tail_of(lossy_text(stderr@)),
        valid_utf8(stderr@) ==> tail@ == tail_of(decode_utf8(stderr@)),
{
    let text: String = read_lossy(stderr);
    text_tail(&text)
}

/// What a failure message quotes of a text.
pub fn text_tail(text: &str) -> (tail: String)
    ensures
        tail@ == tail_of(text@),
{
    let lines: Vec<String> = lines_in(text);
    let ghost all = texts(lines@);
    let mut kept: Vec<String> = Vec::new();
    let mut i: usize = 0;
    assert(all.take(0) =~= Seq::empty());
    assert(texts(kept@) =~= Seq::empty());
    while i < lines.len()
        invariant
            i <= lines.len(),
            all == texts(lines@),
            texts(kept@) == said(all.take(i as int)),
        decreases lines.len() - i,
    {
        let ghost before = kept@;
        assert(all.take(i + 1).drop_last() =~= all.take(i as int));
        assert(all.take(i + 1).last() == lines@[i as int]@);
        let line: String = trim(&lines[i]);
        if !is_blank(&line) {
            kept.push(line);
            assert(texts(kept@) =~= texts(before).push(line@));
        }
        i += 1;
    }
    assert(all.take(all.len() as int) =~= all);
    let from: usize = if kept.len() > QUOTED_LINES {
        kept.len() - QUOTED_LINES
    } else {
        0
    };
    assert(from == 0 ==> texts(kept@).skip(0) =~= texts(kept@));
    let tail: String = string_up(&kept, from, " / ");
    let chars: Vec<char> = chars_of(&tail);
    if chars.len() <= QUOTED_CHARS {
        return tail;
    }
    // The end is kept, not the start: the last words are the ones that name the problem.

    let end: String = from_chars(&chars, chars.len() - QUOTED_CHARS + 1, chars.len());
    let mut cut: String = String::new();
    cut.push('…');
    cut.append(&end);
    assert(cut@ =~= seq!['…'] + tail@.skip(tail@.len() - 499));
    cut
}

/// Whether a text has no characters.
fn is_blank(text: &str) -> (r: bool)
    ensures
        r == (text@.len() == 0),
{
    let chars: Vec<char> = chars_of(text);
    chars.len() == 0
}

/// What is quoted never takes more than five hundred characters.
pub proof fn a_tail_has_at_most_500_characters(text: Seq<char>)
    ensures
        tail_of(text).len() <= 500,
{
}

} // verus!
