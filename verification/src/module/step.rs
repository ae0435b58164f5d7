//! What an action does, as a module plans it and the cleanup engine runs it.
//!
//! A module never deletes and never runs anything that changes something: it answers
//! [`super::Module::plan`] with these, and the cleanup engine executes them through the
//! guards.

use crate::scan::tree::NodeKind;
use crate::text::{chars_of, opt_text, strung, texts};
use vstd::prelude::*;

verus! {

/// One thing an action does, in its order among the others.
#[derive(Debug, Clone, PartialEq, Eq)]
pub enum Step {
    /// Moves the path to the Trash or deletes it for good, whichever the batch's mode says,
    /// through the same guards as a row of the Explorer.
    Delete(Target),
    /// Runs a program, the same way in both modes.
    Run { command: Command, effect: Effect },
}

/// A path a step deletes, and what the module saw there. The kind is checked against the
/// disk in the preview and again right before the step: a file where the module saw a
/// folder is not the thing the user was shown.
#[derive(Debug, Clone, PartialEq, Eq)]
pub struct Target {
    pub path: String,
    pub kind: NodeKind,
}

impl Target {
    pub fn new(path: &str, kind: NodeKind) -> (target: Target)
        ensures
            target@ == (TargetSpec { path: path@, kind }),
    {
        Target { path: path.to_owned(), kind }
    }
}

/// What a `Run` step changes, as the module declares it. It says two things: whether the
/// step needs the guards, and whether the Trash can undo it.
#[derive(Debug, Clone, PartialEq, Eq)]
pub enum Effect {
    /// Bookkeeping nobody could miss: `git worktree prune` once the folder is gone.
    Housekeeping,
    /// Destroys something outside the filesystem the guards see: an image, a simulator.
    Destroys,
    /// Deletes this path by other means, judged by the guards like a [`Step::Delete`] and
    /// never undone by the Trash.
    Removes(Target),
}

/// A program to run, by the name of its tool. The tool is located when the step runs, not
/// when it is planned, and one that has gone by then fails its entry with a sentence that
/// names it.
#[derive(Debug, Clone, PartialEq, Eq)]
pub struct Command {
    pub tool: String,
    pub args: Vec<String>,
    pub cwd: Option<String>,
    /// Added to the environment the app inherited.
    pub env: Vec<(String, String)>,
}

/// A [`Target`] in specifications.
pub struct TargetSpec {
    pub path: Seq<char>,
    pub kind: NodeKind,
}

impl View for Target {
    type V = TargetSpec;

    open spec fn view(&self) -> TargetSpec {
        TargetSpec { path: self.path@, kind: self.kind }
    }
}

/// An [`Effect`] in specifications.
pub enum EffectSpec {
    Housekeeping,
    Destroys,
    Removes(TargetSpec),
}

impl View for Effect {
    type V = EffectSpec;

    open spec fn view(&self) -> EffectSpec {
        match *self {
            Effect::Housekeeping => EffectSpec::Housekeeping,
            Effect::Destroys => EffectSpec::Destroys,
            Effect::Removes(target) => EffectSpec::Removes(target@),
        }
    }
}

/// A [`Command`] in specifications.
pub struct CommandSpec {
    pub tool: Seq<char>,
    pub args: Seq<Seq<char>>,
    pub cwd: Option<Seq<char>>,
    pub env: Seq<(Seq<char>, Seq<char>)>,
}

impl View for Command {
    type V = CommandSpec;

    open spec fn view(&self) -> CommandSpec {
        CommandSpec {
            tool: self.tool@,
            args: texts(self.args@),
            cwd: opt_text(self.cwd),
            env: pairs(self.env@),
        }
    }
}

/// A [`Step`] in specifications.
pub enum StepSpec {
    Delete(TargetSpec),
    Run(CommandSpec, EffectSpec),
}

impl View for Step {
    type V = StepSpec;

    open spec fn view(&self) -> StepSpec {
        match *self {
            Step::Delete(target) => StepSpec::Delete(target@),
            Step::Run { command, effect } => StepSpec::Run(command@, effect@),
        }
    }
}

/// Several steps in specifications.
pub open spec fn step_views(steps: Seq<Step>) -> Seq<StepSpec> {
    steps.map_values(|step: Step| step@)
}

/// The characters of every pair of strings.
pub open spec fn pairs(list: Seq<(String, String)>) -> Seq<(Seq<char>, Seq<char>)> {
    list.map_values(|pair: (String, String)| (pair.0@, pair.1@))
}

/// A copy of a list of pairs.
pub fn copy_pairs(list: &Vec<(String, String)>) -> (copy: Vec<(String, String)>)
    ensures
        pairs(copy@) == pairs(list@),
{
    let mut copy: Vec<(String, String)> = Vec::new();
    let mut i: usize = 0;
    while i < list.len()
        invariant
            i <= list.len(),
            copy.len() == i,
            forall|k: int|
                0 <= k < i ==> (#[trigger] copy@[k]).0@ == list@[k].0@ && copy@[k].1@ == list@[k].1@,
        decreases list.len() - i,
    {
        copy.push((list[i].0.clone(), list[i].1.clone()));
        i += 1;
    }
    assert(pairs(copy@) =~= pairs(list@));
    copy
}

impl Command {
    pub fn new(tool: &str) -> (command: Command)
        ensures
            command@ == (CommandSpec {
                tool: tool@,
                args: Seq::empty(),
                cwd: None,
                env: Seq::empty(),
            }),
    {
        let command = Command {
            tool: tool.to_owned(),
            args: Vec::new(),
            cwd: None,
            env: Vec::new(),
        };
        assert(texts(command.args@) =~= Seq::empty());
        assert(pairs(command.env@) =~= Seq::empty());
        command
    }

    /// The command with one more argument.
    pub fn arg(self, arg: &str) -> (command: Command)
        ensures
            command@ == (CommandSpec { args: self@.args.push(arg@), ..self@ }),
    {
        let mut command: Command = self;
        command.args.push(arg.to_owned());
        assert(texts(command.args@) =~= texts(self.args@).push(arg@));
        command
    }

    /// The command with more arguments.
    pub fn args(self, args: &Vec<&str>) -> (command: Command)
        ensures
            command@ == (CommandSpec {
                args: self@.args + args@.map_values(|arg: &str| arg@),
                ..self@
            }),
    {
        let mut command: Command = self;
        let mut i: usize = 0;
        let ghost more = args@.map_values(|arg: &str| arg@);
        assert(texts(command.args@) =~= texts(self.args@) + more.take(0));
        while i < args.len()
            invariant
                i <= args.len(),
                more == args@.map_values(|arg: &str| arg@),
                command.tool == self.tool,
                command.cwd == self.cwd,
                command.env == self.env,
                texts(command.args@) == texts(self.args@) + more.take(i as int),
            decreases args.len() - i,
        {
            let ghost before = command.args@;
            command.args.push(args[i].to_owned());
            assert(texts(command.args@) =~= texts(before).push(more[i as int]));
            assert(more.take(i + 1) =~= more.take(i as int).push(more[i as int]));
            i += 1;
        }
        assert(more.take(more.len() as int) =~= more);
        command
    }

    /// The command, run in `cwd`.
    pub fn cwd(self, cwd: &str) -> (command: Command)
        ensures
            command@ == (CommandSpec { cwd: Some(cwd@), ..self@ }),
    {
        let mut command: Command = self;
        command.cwd = Some(cwd.to_owned());
        command
    }

    /// The command with one more variable in its environment.
    pub fn env(self, key: &str, value: &str) -> (command: Command)
        ensures
            command@ == (CommandSpec { env: self@.env.push((key@, value@)), ..self@ }),
    {
        let mut command: Command = self;
        command.env.push((key.to_owned(), value.to_owned()));
        assert(pairs(command.env@) =~= pairs(self.env@).push((key@, value@)));
        command
    }

    /// The tool and its arguments, for the record: one string per word.
    pub fn argv(&self) -> (words: Vec<String>)
        ensures
            texts(words@) == argv_of(self@),
    {
        let mut words: Vec<String> = Vec::new();
        words.push(self.tool.clone());
        let mut args: Vec<String> = crate::text::copy_all(&self.args);
        let ghost copied = args@;
        words.append(&mut args);
        assert(texts(words@) =~= seq![self.tool@] + texts(copied));
        words
    }

    /// The command as a person reads it; see [`command_line`].
    pub fn line(&self) -> (text: String)
        ensures
            text@ == line_of(self@),
    {
        command_line(&self.argv())
    }
}

/// The words of a command: its tool and its arguments.
pub open spec fn argv_of(command: CommandSpec) -> Seq<Seq<char>> {
    seq![command.tool] + command.args
}

/// A command as a person reads it.
pub open spec fn line_of(command: CommandSpec) -> Seq<char> {
    command_line_of(argv_of(command))
}

/// Whether a character cannot be misread in a word.
pub open spec fn plain_char(c: char) -> bool {
    ||| 'a' <= c <= 'z'
    ||| 'A' <= c <= 'Z'
    ||| '0' <= c <= '9'
    ||| c == '_'
    ||| c == '.'
    ||| c == '/'
    ||| c == ':'
    ||| c == '='
    ||| c == '@'
    ||| c == '%'
    ||| c == '+'
    ||| c == ','
    ||| c == '-'
}

/// Whether a word could not be misread.
pub open spec fn plain_word(word: Seq<char>) -> bool {
    word.len() > 0 && forall|i: int| 0 <= i < word.len() ==> plain_char(#[trigger] word[i])
}

/// A word with every quote in it closed, escaped and opened again.
pub open spec fn escaped(word: Seq<char>) -> Seq<char>
    decreases word.len(),
{
    if word.len() == 0 {
        Seq::empty()
    } else if word.last() == '\'' {
        escaped(word.drop_last()) + seq!['\'', '\\', '\'', '\'']
    } else {
        escaped(word.drop_last()).push(word.last())
    }
}

/// A word bare when it could not be misread, and in single quotes otherwise.
pub open spec fn quoted(word: Seq<char>) -> Seq<char> {
    if plain_word(word) {
        word
    } else {
        seq!['\''] + escaped(word) + seq!['\'']
    }
}

/// Words joined into one line, quoted.
pub open spec fn command_line_of(words: Seq<Seq<char>>) -> Seq<char> {
    strung(words.map_values(|word: Seq<char>| quoted(word)), " "@)
}

/// Words joined into one line, quoted so that a path with a space in it reads as one
/// argument: `rm '/Users/me/Application Support/x'`.
///
/// For reading only: the preview, the report, a failure message. Nothing parses it back: the
/// process receives the words, and a line that looks like it could be pasted into a shell is
/// not a promise that it can be.
pub fn command_line(words: &Vec<String>) -> (line: String)
    ensures
        line@ == command_line_of(texts(words@)),
{
    let mut quotes: Vec<String> = Vec::new();
    let mut i: usize = 0;
    while i < words.len()
        invariant
            i <= words.len(),
            quotes.len() == i,
            forall|k: int| 0 <= k < i ==> (#[trigger] quotes@[k])@ == quoted(words@[k]@),
        decreases words.len() - i,
    {
        quotes.push(quote(&words[i]));
        i += 1;
    }
    let ghost all = texts(words@).map_values(|word: Seq<char>| quoted(word));
    assert(texts(quotes@).skip(0) =~= all);
    crate::text::string_up(&quotes, 0, " ")
}

/// Whether a character cannot be misread in a word.
fn is_plain(c: char) -> (r: bool)
    ensures
        r == plain_char(c),
{
    ('a' <= c && c <= 'z') || ('A' <= c && c <= 'Z') || ('0' <= c && c <= '9') || c == '_' || c
        == '.' || c == '/' || c == ':' || c == '=' || c == '@' || c == '%' || c == '+' || c == ',' || c
        == '-'
}

/// A word bare when it could not be misread, and in single quotes otherwise, with a quote
/// inside written as `'\''`.
fn quote(word: &str) -> (text: String)
    ensures
        text@ == quoted(word@),
{
    let chars: Vec<char> = chars_of(word);
    let mut plain: bool = chars.len() > 0;
    let mut inside: String = String::new();
    let mut i: usize = 0;
    assert(chars@.take(0) =~= Seq::empty());
    while i < chars.len()
        invariant
            i <= chars.len(),
            plain == (chars@.len() > 0 && forall|k: int|
                0 <= k < i ==> plain_char(#[trigger] chars@[k])),
            inside@ == escaped(chars@.take(i as int)),
        decreases chars.len() - i,
    {
        assert(chars@.take(i + 1).drop_last() =~= chars@.take(i as int));
        let c: char = chars[i];
        plain = plain && is_plain(c);
        if c == '\'' {
            inside.append("'\\''");
            proof {
                reveal_strlit("'\\''");
                assert("'\\''"@ =~= seq!['\'', '\\', '\'', '\'']);
            }
        } else {
            inside.push(c);
        }
        i += 1;
    }
    assert(chars@.take(chars@.len() as int) =~= chars@);
    if plain {
        word.to_owned()
    } else {
        let mut text: String = String::new();
        text.push('\'');
        text.append(&inside);
        text.push('\'');
        assert(text@ =~= seq!['\''] + inside@ + seq!['\'']);
        text
    }
}

/// Whether what stands before a word ends where a word can begin.
spec fn before_word(text: Seq<char>) -> bool {
    text.len() == 0 || text.last() == ' '
}

proof fn escapes_end_alike(p: Seq<char>, u: Seq<char>, q: Seq<char>, v: Seq<char>)
    requires
        before_word(p),
        before_word(q),
        p + seq!['\''] + escaped(u) == q + seq!['\''] + escaped(v),
    ensures
        p == q,
        u == v,
    decreases u.len() + v.len(),
{
    let a = p + seq!['\''] + escaped(u);
    let b = q + seq!['\''] + escaped(v);
    if u.len() == 0 && v.len() == 0 {
        assert(a.drop_last() =~= p);
        assert(b.drop_last() =~= q);
        assert(u =~= v);
    } else if u.len() == 0 {
        quote_is_no_escape(p, q, v);
    } else if v.len() == 0 {
        quote_is_no_escape(q, p, u);
    } else {
        let x = escaped(u.drop_last());
        let y = escaped(v.drop_last());
        let left = p + seq!['\''] + x;
        let right = q + seq!['\''] + y;
        if u.last() == '\'' && v.last() == '\'' {
            assert(a =~= left + seq!['\'', '\\', '\'', '\'']);
            assert(b =~= right + seq!['\'', '\\', '\'', '\'']);
            assert(left =~= a.take(a.len() - 4));
            assert(right =~= b.take(b.len() - 4));
        } else if u.last() == '\'' {
            assert(a.last() == '\'');
            assert(b.last() == v.last());
        } else if v.last() == '\'' {
            assert(b.last() == '\'');
            assert(a.last() == u.last());
        } else {
            assert(a =~= left.push(u.last()));
            assert(b =~= right.push(v.last()));
            assert(a.last() == u.last() && b.last() == v.last());
            assert(left =~= a.drop_last());
            assert(right =~= b.drop_last());
        }
        escapes_end_alike(p, u.drop_last(), q, v.drop_last());
        assert(u =~= u.drop_last().push(u.last()));
        assert(v =~= v.drop_last().push(v.last()));
    }
}

/// A quote that opens is not the end of one that was escaped.
proof fn quote_is_no_escape(p: Seq<char>, q: Seq<char>, v: Seq<char>)
    requires
        before_word(p),
        v.len() > 0,
    ensures
        p + seq!['\''] + escaped(Seq::empty()) != q + seq!['\''] + escaped(v),
{
    let a = p + seq!['\''] + escaped(Seq::empty());
    let b = q + seq!['\''] + escaped(v);
    assert(a =~= p.push('\''));
    let y = escaped(v.drop_last());
    if v.last() == '\'' {
        assert(b =~= (q + seq!['\''] + y) + seq!['\'', '\\', '\'', '\'']);
        assert(b[b.len() - 2] == '\'');
        if a == b {
            assert(a[a.len() - 2] == p.last());
        }
    } else {
        assert(b =~= (q + seq!['\''] + y).push(v.last()));
        assert(b.last() == v.last());
        assert(a.last() == '\'');
    }
}

/// A word is read off the end of a line in one way.
proof fn words_end_alike(p: Seq<char>, u: Seq<char>, q: Seq<char>, v: Seq<char>)
    requires
        before_word(p),
        before_word(q),
        p + quoted(u) == q + quoted(v),
    ensures
        p == q,
        u == v,
{
    let a = p + quoted(u);
    let b = q + quoted(v);
    if plain_word(u) && plain_word(v) {
        if u.len() < v.len() {
            let at = a.len() - u.len() - 1;
            assert(b[at] == v[v.len() - u.len() - 1]);
            assert(a[at] == p.last());
        } else if v.len() < u.len() {
            let at = b.len() - v.len() - 1;
            assert(a[at] == u[u.len() - v.len() - 1]);
            assert(b[at] == q.last());
        }
        assert(p =~= a.take(p.len() as int));
        assert(q =~= b.take(q.len() as int));
        assert(u =~= a.skip(p.len() as int));
        assert(v =~= b.skip(q.len() as int));
    } else if plain_word(u) {
        assert(a.last() == u.last() && plain_char(u[u.len() - 1]));
        assert(b.last() == '\'');
    } else if plain_word(v) {
        assert(b.last() == v.last() && plain_char(v[v.len() - 1]));
        assert(a.last() == '\'');
    } else {
        assert(a.drop_last() =~= p + seq!['\''] + escaped(u));
        assert(b.drop_last() =~= q + seq!['\''] + escaped(v));
        escapes_end_alike(p, u, q, v);
    }
}

/// A line without its last word, and the word.
proof fn line_splits(words: Seq<Seq<char>>)
    requires
        words.len() > 0,
    ensures
        command_line_of(words) == if words.len() == 1 {
            quoted(words[0])
        } else {
            command_line_of(words.drop_last()) + " "@ + quoted(words.last())
        },
{
    let all = words.map_values(|word: Seq<char>| quoted(word));
    let less = words.drop_last().map_values(|word: Seq<char>| quoted(word));
    assert(all.drop_last() =~= less);
}

/// A line reads in one way: two lists of words that give one line are the same list, whatever
/// spaces and quotes the words hold.
pub proof fn a_line_reads_in_one_way(a: Seq<Seq<char>>, b: Seq<Seq<char>>)
    requires
        command_line_of(a) == command_line_of(b),
    ensures
        a == b,
    decreases a.len() + b.len(),
{
    reveal_strlit(" ");
    if a.len() > 0 {
        line_splits(a);
    }
    if b.len() > 0 {
        line_splits(b);
    }
    if a.len() == 0 || b.len() == 0 {
        assert(a =~= b);
    } else {
        let p = if a.len() == 1 {
            Seq::empty()
        } else {
            command_line_of(a.drop_last()) + " "@
        };
        let q = if b.len() == 1 {
            Seq::empty()
        } else {
            command_line_of(b.drop_last()) + " "@
        };
        assert(command_line_of(a) =~= p + quoted(a.last()));
        assert(command_line_of(b) =~= q + quoted(b.last()));
        words_end_alike(p, a.last(), q, b.last());
        if a.len() > 1 && b.len() > 1 {
            assert(p.drop_last() =~= command_line_of(a.drop_last()));
            assert(q.drop_last() =~= command_line_of(b.drop_last()));
            a_line_reads_in_one_way(a.drop_last(), b.drop_last());
        }
        assert(a =~= a.drop_last().push(a.last()));
        assert(b =~= b.drop_last().push(b.last()));
        if a.len() == 1 {
            assert(a.drop_last() =~= b.drop_last());
        }
    }
}

} // verus!
