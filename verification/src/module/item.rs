//! What a module found, and what it thinks of it.

use crate::action::model::Timestamp;
use vstd::prelude::*;

verus! {

/// One thing a module found and can remove.
#[derive(Debug, Clone, PartialEq, Eq)]
pub struct Item {
    /// `<module>:<native id>`, stable across discoveries. The selection and every request of
    /// a batch are keyed by it, so a refresh keeps the ticks of the items that are still
    /// there.
    pub id: String,
    /// The id of the module that found it.
    pub module: String,
    /// The module's own word for it: `folder`, `object`, `worktree`, `image`.
    pub kind: String,
    pub title: String,
    pub subtitle: Option<String>,
    /// Where it lives, when it lives on the filesystem.
    pub path: Option<String>,
    pub size: Size,
    /// When it was last used, as well as the module can tell.
    pub last_used: Option<Timestamp>,
    pub verdict: Verdict,
    pub facts: Vec<Fact>,
    /// What can be done with it; the first is what a batch does unless told otherwise.
    pub actions: Vec<ActionSpec>,
}

/// Where the first action with this id is among several.
pub open spec fn action_at(actions: Seq<ActionSpec>, id: Seq<char>) -> Option<int>
    decreases actions.len(),
{
    if actions.len() == 0 {
        None
    } else {
        match action_at(actions.drop_last(), id) {
            Some(i) => Some(i),
            None => if actions.last().id@ == id {
                Some(actions.len() - 1)
            } else {
                None
            },
        }
    }
}

/// The first action with this id.
pub open spec fn action_of(item: Item, id: Seq<char>) -> Option<ActionSpec> {
    match action_at(item.actions@, id) {
        Some(i) => Some(item.actions@[i]),
        None => None,
    }
}

/// A found action is one of those there are, and has the id.
pub proof fn action_found(actions: Seq<ActionSpec>, id: Seq<char>)
    ensures
        action_at(actions, id) matches Some(i) ==> 0 <= i < actions.len() && actions[i].id@ == id,
    decreases actions.len(),
{
    if actions.len() > 0 {
        action_found(actions.drop_last(), id);
    }
}

impl Item {
    /// The action with this id, if the item offers it.
    pub fn action(&self, id: &str) -> (found: Option<&ActionSpec>)
        ensures
            match (found, action_of(*self, id@)) {
                (Some(action), Some(expected)) => *action == expected,
                (None, None) => true,
                _ => false,
            },
    {
        let mut i: usize = 0;
        assert(self.actions@.take(0) =~= Seq::empty());
        while i < self.actions.len()
            invariant
                i <= self.actions.len(),
                action_at(self.actions@.take(i as int), id@) is None,
            decreases self.actions.len() - i,
        {
            let ghost longer = self.actions@.take(i + 1);
            assert(longer.drop_last() =~= self.actions@.take(i as int));
            if crate::text::same(&self.actions[i].id, id) {
                proof {
                    assert(action_at(longer, id@) == Some(i as int));
                    action_prefix(self.actions@, id@, i + 1);
                }
                return Some(&self.actions[i]);
            }
            i += 1;
        }
        assert(self.actions@.take(self.actions@.len() as int) =~= self.actions@);
        None
    }
}

proof fn action_prefix(actions: Seq<ActionSpec>, id: Seq<char>, k: int)
    requires
        0 <= k <= actions.len(),
        action_at(actions.take(k), id) is Some,
    ensures
        action_at(actions, id) == action_at(actions.take(k), id),
    decreases actions.len(),
{
    if k == actions.len() {
        assert(actions.take(k) =~= actions);
    } else {
        assert(actions.drop_last().take(k) =~= actions.take(k));
        action_prefix(actions.drop_last(), id, k);
    }
}

/// How much an item takes, and how sure the module is.
#[derive(Debug, Clone, Copy, PartialEq, Eq, Structural)]
pub struct Size {
    /// Allocated bytes, like the scanner's.
    pub bytes: u64,
    /// The module could not measure it exactly, and the screen draws it with a `~`.
    pub estimated: bool,
}

impl Size {
    pub fn exact(bytes: u64) -> (size: Size)
        ensures
            size == (Size { bytes, estimated: false }),
    {
        Size { bytes, estimated: false }
    }

    pub fn estimated(bytes: u64) -> (size: Size)
        ensures
            size == (Size { bytes, estimated: true }),
    {
        Size { bytes, estimated: true }
    }
}

/// How confident the module is that the item can go.
#[derive(Debug, Clone, Copy, PartialEq, Eq, PartialOrd, Ord, Hash, Structural)]
pub enum Level {
    /// The module is confident it can go.
    Safe,
    /// Probably stale; a human should glance at it.
    Review,
    /// Not offered by default. It is refused unless one of the action's `force` options is
    /// turned on.
    Keep,
}

/// A level and the reasons for it, in words a user reads.
#[derive(Debug, Clone, PartialEq, Eq)]
pub struct Verdict {
    pub level: Level,
    pub reasons: Vec<Reason>,
}

impl Verdict {
    pub fn new(level: Level, reasons: Vec<Reason>) -> (verdict: Verdict)
        ensures
            verdict == (Verdict { level, reasons }),
    {
        Verdict { level, reasons }
    }
}

/// Why a verdict is what it is. The `code` is never shown; the `text` is the sentence the
/// screen shows.
#[derive(Debug, Clone, PartialEq, Eq)]
pub struct Reason {
    pub code: String,
    pub text: String,
}

impl Reason {
    pub fn new(code: &str, text: &str) -> (reason: Reason)
        ensures
            reason.code@ == code@,
            reason.text@ == text@,
    {
        Reason { code: code.to_owned(), text: text.to_owned() }
    }
}

/// One line of the detail panel: a label and a value the screen formats by its type.
#[derive(Debug, Clone, PartialEq, Eq)]
pub struct Fact {
    pub key: String,
    pub label: String,
    pub value: FactValue,
}

impl Fact {
    pub fn new(key: &str, label: &str, value: FactValue) -> (fact: Fact)
        ensures
            fact.key@ == key@,
            fact.label@ == label@,
            fact.value == value,
    {
        Fact { key: key.to_owned(), label: label.to_owned(), value }
    }
}

/// A value the screen knows how to draw.
#[derive(Debug, Clone, PartialEq, Eq)]
pub enum FactValue {
    Text(String),
    /// Drawn 1000-based, like every size in the app.
    Bytes(u64),
    Count(u64),
    Date(Timestamp),
    Flag(bool),
    /// Drawn with "Reveal in Finder".
    Path(String),
}

/// Something that can be done with an item. What it does is not here: the module plans the
/// steps for a given mode when asked.
#[derive(Debug, Clone, PartialEq, Eq)]
pub struct ActionSpec {
    pub id: String,
    pub label: String,
    /// What the dialog promises and what the record says was freed. Two items of one batch
    /// must not count the same blocks.
    pub estimated_free: u64,
    pub options: Vec<ActionOption>,
}

/// Where the first option with this id is among several.
pub open spec fn option_at(options: Seq<ActionOption>, id: Seq<char>) -> Option<int>
    decreases options.len(),
{
    if options.len() == 0 {
        None
    } else {
        match option_at(options.drop_last(), id) {
            Some(i) => Some(i),
            None => if options.last().id@ == id {
                Some(options.len() - 1)
            } else {
                None
            },
        }
    }
}

/// The first option with this id.
pub open spec fn option_of(action: ActionSpec, id: Seq<char>) -> Option<ActionOption> {
    match option_at(action.options@, id) {
        Some(i) => Some(action.options@[i]),
        None => None,
    }
}

impl ActionSpec {
    /// The option with this id, if the action has it.
    pub fn option(&self, id: &str) -> (found: Option<&ActionOption>)
        ensures
            match (found, option_of(*self, id@)) {
                (Some(option), Some(expected)) => *option == expected,
                (None, None) => true,
                _ => false,
            },
    {
        let mut i: usize = 0;
        assert(self.options@.take(0) =~= Seq::empty());
        while i < self.options.len()
            invariant
                i <= self.options.len(),
                option_at(self.options@.take(i as int), id@) is None,
            decreases self.options.len() - i,
        {
            let ghost longer = self.options@.take(i + 1);
            assert(longer.drop_last() =~= self.options@.take(i as int));
            if crate::text::same(&self.options[i].id, id) {
                proof {
                    assert(option_at(longer, id@) == Some(i as int));
                    option_prefix(self.options@, id@, i + 1);
                }
                return Some(&self.options[i]);
            }
            i += 1;
        }
        assert(self.options@.take(self.options@.len() as int) =~= self.options@);
        None
    }
}

proof fn option_prefix(options: Seq<ActionOption>, id: Seq<char>, k: int)
    requires
        0 <= k <= options.len(),
        option_at(options.take(k), id) is Some,
    ensures
        option_at(options, id) == option_at(options.take(k), id),
    decreases options.len(),
{
    if k == options.len() {
        assert(options.take(k) =~= options);
    } else {
        assert(options.drop_last().take(k) =~= options.take(k));
        option_prefix(options.drop_last(), id, k);
    }
}

/// A switch on an action: "also delete the local branch", "force".
#[derive(Debug, Clone, PartialEq, Eq)]
pub struct ActionOption {
    pub id: String,
    pub label: String,
    /// Whether it starts turned on.
    pub default: bool,
    /// Turning it on lets the action remove an item whose verdict is Keep.
    pub force: bool,
}

} // verus!
