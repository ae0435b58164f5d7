//! The vocabulary of a cleanup batch: what the Cleanup screen asks for, what the engine
//! would do, and what it did.

use crate::action::model::{EntryResult, EntryStatus, Mode, Timestamp};
use crate::scan::tree::NodeKind;
use crate::text::opt_text;
use vstd::prelude::*;

verus! {

/// One item the user asked to clean, with the action and the options chosen for it.
#[derive(Debug, Clone, PartialEq, Eq)]
pub struct Request {
    /// The item's id, `<module>:<native id>`.
    pub item: String,
    /// The id of one of the item's actions.
    pub action: String,
    /// The ids of the options turned on.
    pub options: Vec<String>,
}

/// One step as the dialog shows it.
#[derive(Debug, Clone, PartialEq, Eq)]
pub enum StepView {
    /// A `Delete` in Trash mode.
    Trash { path: String },
    /// A `Delete` in Permanent mode.
    Delete { path: String },
    /// A program, by its command line, with what it changes.
    Run {
        command: String,
        effect: EffectView,
        /// The path a `Removes` step deletes.
        path: Option<String>,
    },
}

/// What a `Run` step changes, without the target it may carry.
#[derive(Debug, Clone, Copy, PartialEq, Eq, Structural)]
pub enum EffectView {
    Housekeeping,
    Destroys,
    Removes,
}

/// A [`StepView`] in specifications.
pub enum StepViewSpec {
    Trash(Seq<char>),
    Delete(Seq<char>),
    Run(Seq<char>, EffectView, Option<Seq<char>>),
}

impl View for StepView {
    type V = StepViewSpec;

    open spec fn view(&self) -> StepViewSpec {
        match *self {
            StepView::Trash { path } => StepViewSpec::Trash(path@),
            StepView::Delete { path } => StepViewSpec::Delete(path@),
            StepView::Run { command, effect, path } => StepViewSpec::Run(
                command@,
                effect,
                opt_text(path),
            ),
        }
    }
}

/// One request, checked: what would happen to it, and whether it can happen at all.
#[derive(Debug, Clone, PartialEq, Eq)]
pub struct CleanupEntry {
    pub item: String,
    /// The module's id; empty for an item that is not held any more.
    pub module: String,
    /// The item's title, or its id when the item is not held any more.
    pub title: String,
    /// The action's label, or its id when the item does not offer it.
    pub action: String,
    /// What would run, in order. Empty when the entry was refused before it was planned.
    pub steps: Vec<StepView>,
    /// The action's `estimated_free`: what the dialog promises.
    pub size: u64,
    pub status: EntryStatus,
    /// Whether the Trash can undo it in this preview's mode: the mode is Trash and every
    /// step is a `Delete` or housekeeping.
    pub reversible: bool,
}

/// A checked cleanup batch in one mode: nothing was touched.
#[derive(Debug, Clone, PartialEq, Eq)]
pub struct CleanupPreview {
    /// One per request, in the order they came, refused ones too.
    pub entries: Vec<CleanupEntry>,
    /// Sum of `size` over the ready entries.
    pub total_bytes: u64,
    pub mode: Mode,
}

/// How far a batch has got, reported before every entry and once at the end.
#[derive(Debug, Clone, PartialEq, Eq)]
pub struct Progress {
    pub done: usize,
    pub total: usize,
    /// The title of the entry starting now; `None` once the batch is over.
    pub current: Option<String>,
}

/// What became of one request.
#[derive(Debug, Clone, PartialEq, Eq)]
pub struct CleanupEntryOutcome {
    pub item: String,
    pub module: String,
    pub title: String,
    pub action: String,
    /// The item's path, when it has one and was still held.
    pub path: Option<String>,
    /// The kind of the target at the item's path, when the plan had one.
    pub kind: Option<NodeKind>,
    /// Every target a step tried to delete, normalized: what the Explorer's tree is patched
    /// by afterwards, whether the step succeeded or not.
    pub targets: Vec<String>,
    /// How this entry left: the batch's mode when the entry is reversible, `permanent`
    /// otherwise. A line saying "removed, Trash" about a Docker image would promise a
    /// recovery that does not exist.
    pub mode: Mode,
    /// The words of every command that started, in order.
    pub commands: Vec<Vec<String>>,
    pub result: EntryResult,
}

/// What a whole cleanup batch did.
#[derive(Debug, Clone, PartialEq, Eq)]
pub struct CleanupOutcome {
    pub entries: Vec<CleanupEntryOutcome>,
    /// Bytes of the removed entries, the sum of their `estimated_free`.
    pub freed_bytes: u64,
    /// When the batch began; shared by every entry.
    pub at: Timestamp,
    /// The mode the batch was asked to run in. Each entry says the mode it really left in.
    pub mode: Mode,
}

} // verus!
