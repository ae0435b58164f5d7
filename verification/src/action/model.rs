//! The vocabulary of a deletion: what a caller asks for, what the guards allow, and what
//! actually happened.

use crate::scan::tree::NodeKind;
use vstd::prelude::*;

verus! {

/// An instant: seconds since the Unix epoch and the nanoseconds on top of them.
#[derive(Debug, Clone, Copy, PartialEq, Eq, Structural)]
pub struct Timestamp {
    pub secs: i64,
    pub nanos: u32,
}

/// How an entry leaves the disk.
#[derive(Debug, Clone, Copy, PartialEq, Eq, Structural)]
pub enum Mode {
    /// Move to the Trash; the bytes come back only when the Trash is emptied.
    Trash,
    /// Delete outright.
    Permanent,
}

/// One entry a caller asks to delete, as the scanned tree knows it.
#[derive(Debug, Clone, PartialEq, Eq)]
pub struct PlanEntry {
    /// Path as the tree reports it; the guards normalize it before anything is touched.
    pub path: String,
    pub kind: NodeKind,
    /// Allocated bytes recorded by the scan: what the UI promises to free.
    pub size: u64,
}

/// A batch submitted for deletion.
#[derive(Debug, Clone, PartialEq, Eq)]
pub struct Plan {
    pub entries: Vec<PlanEntry>,
    pub mode: Mode,
}

/// Why an entry will not be deleted.
#[derive(Debug, Clone, Copy, PartialEq, Eq, Structural)]
pub enum BlockReason {
    /// Not inside the scan root.
    OutsideRoots,
    /// Inside a place the app never deletes from.
    Denylisted,
    /// The entry is a folder that may not be deleted as a whole, though what is inside it
    /// may.
    Shielded,
    /// The path does not name an entry at all: `/`, or a path ending in `..`.
    Malformed,
    /// The scan root itself, or one of its ancestors.
    IsRoot,
    /// Another entry of the same batch contains it.
    Nested,
    /// Nothing is there any more.
    Missing,
    /// Something on the way to it cannot be read. Distinct from [`BlockReason::Missing`] on
    /// purpose: the entry may well be there.
    Unreadable,
    /// The entry is no longer what the preview saw.
    KindChanged,
    /// The verdict is to keep it, and nobody asked to override that.
    Kept,
}

/// The verdict of the guards for one entry.
#[derive(Debug, Clone, Copy, PartialEq, Eq, Structural)]
pub enum EntryStatus {
    Ready,
    Blocked(BlockReason),
}

/// One checked entry. Blocked entries keep their place in the list so the UI can show them
/// with their reason instead of silently dropping them.
#[derive(Debug, Clone, PartialEq, Eq)]
pub struct PreviewEntry {
    /// The normalized path, which is exactly what would be deleted.
    pub path: String,
    /// What the entry is: for one that is ready, or was until another entry turned out to
    /// contain it, the kind the disk reported; for every other one the plan's claim.
    pub kind: NodeKind,
    /// The size the plan carried, from the scan.
    pub size: u64,
    pub status: EntryStatus,
}

/// A checked plan: no side effects, safe to show and to throw away.
#[derive(Debug, Clone, PartialEq, Eq)]
pub struct Preview {
    pub entries: Vec<PreviewEntry>,
    /// Sum of `size` over the [`EntryStatus::Ready`] entries only.
    pub total_bytes: u64,
    pub mode: Mode,
}

/// What became of one entry.
#[derive(Debug, Clone, PartialEq, Eq)]
pub enum EntryResult {
    /// Gone, and `bytes` freed (or, in [`Mode::Trash`], freed once the Trash is emptied).
    Removed { bytes: u64 },
    /// The deletion was attempted and failed; `message` is for the user.
    Failed { message: String },
    /// Never touched: the guards refused it, here or at execution time.
    Skipped { reason: BlockReason },
}

/// An [`EntryResult`] in specifications.
pub enum EntryResultSpec {
    Removed(u64),
    Failed(Seq<char>),
    Skipped(BlockReason),
}

impl View for EntryResult {
    type V = EntryResultSpec;

    open spec fn view(&self) -> EntryResultSpec {
        match *self {
            EntryResult::Removed { bytes } => EntryResultSpec::Removed(bytes),
            EntryResult::Failed { message } => EntryResultSpec::Failed(message@),
            EntryResult::Skipped { reason } => EntryResultSpec::Skipped(reason),
        }
    }
}

/// One line of the action log.
#[derive(Debug, Clone, PartialEq, Eq)]
pub struct EntryOutcome {
    pub path: String,
    pub kind: NodeKind,
    pub result: EntryResult,
}

/// What a whole batch did.
#[derive(Debug, Clone, PartialEq, Eq)]
pub struct Outcome {
    pub entries: Vec<EntryOutcome>,
    /// Bytes of the entries that were really removed. In [`Mode::Trash`] this is what will
    /// be freed once the Trash is emptied.
    pub freed_bytes: u64,
    /// When the batch ran.
    pub at: Timestamp,
    /// How the entries left, mirroring [`Preview::mode`].
    pub mode: Mode,
}

/// `a + b`, held at the largest number.
pub open spec fn capped_sum(a: u64, b: u64) -> u64 {
    if a + b > u64::MAX {
        u64::MAX
    } else {
        (a + b) as u64
    }
}

/// The sizes of the ready ones among the first `k` entries, held at the largest number.
pub open spec fn ready_bytes(entries: Seq<PreviewEntry>, k: nat) -> u64
    decreases k,
{
    if k == 0 {
        0
    } else {
        let before = ready_bytes(entries, (k - 1) as nat);
        if entries[k - 1].status == EntryStatus::Ready {
            capped_sum(before, entries[k - 1].size)
        } else {
            before
        }
    }
}

/// The bytes a result freed.
pub open spec fn freed_by(result: EntryResultSpec) -> u64 {
    match result {
        EntryResultSpec::Removed(bytes) => bytes,
        _ => 0,
    }
}

/// The bytes the first `k` results freed, held at the largest number.
pub open spec fn freed_bytes(results: Seq<EntryResultSpec>, k: nat) -> u64
    decreases k,
{
    if k == 0 {
        0
    } else {
        capped_sum(freed_bytes(results, (k - 1) as nat), freed_by(results[k - 1]))
    }
}

} // verus!
