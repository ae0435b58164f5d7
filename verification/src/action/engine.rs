//! The stages a deletion goes through. [`preview`] only decides, so a preview can be built,
//! shown and thrown away at will. [`execute`] is the other one.
//!
//! Every entry of the plan comes back, in its place, whether or not it survived the checks:
//! a silently shortened list would be a dialog that lies about the selection. The outcome
//! keeps that shape one stage further, where it becomes the action log.
//!
//! What the disk says comes in as plain values, one [`EntryLook`] per entry, and what became
//! of a deletion as one more.

use super::guards::{drop_nested, look_absolute, swallowed, swallows, Limits, LimitsSpec};
use super::guards::{Look, LookSpec};
use super::model::{freed_by, freed_bytes, ready_bytes, EntryResultSpec};
use super::model::{BlockReason, EntryOutcome, EntryResult, EntryStatus, Mode, Outcome, Plan};
use super::model::{PlanEntry, Preview, PreviewEntry, Timestamp};
use crate::path::{absolute, joined, same_path, within};
use crate::scan::tree::NodeKind;
use crate::text::texts;
use vstd::prelude::*;

verus! {

/// What kind of answer a refusal of the system was.
#[derive(Debug, Clone, Copy, PartialEq, Eq, Structural)]
pub enum SystemErrorKind {
    /// Nothing is at the path.
    Missing,
    /// The path is not one the system takes: not absolute, or not in normal form.
    Rejected,
    /// Permissions, a loop, anything else.
    Other,
}

/// Why the system did not do what it was asked, with the words for the user.
#[derive(Debug, Clone, PartialEq, Eq)]
pub struct SystemError {
    pub kind: SystemErrorKind,
    pub message: String,
}

/// What the disk says about one entry: what the guards ask, and the kind of what is at the
/// path they allow.
#[derive(Debug)]
pub struct EntryLook {
    pub look: Look,
    pub stat: Result<NodeKind, SystemError>,
}

/// An [`EntryLook`] in specifications.
pub struct EntryLookSpec {
    pub look: LookSpec,
    pub stat: Result<NodeKind, SystemErrorKind>,
}

impl View for EntryLook {
    type V = EntryLookSpec;

    open spec fn view(&self) -> EntryLookSpec {
        EntryLookSpec {
            look: self.look@,
            stat: match self.stat {
                Ok(kind) => Ok(kind),
                Err(error) => Err(error.kind),
            },
        }
    }
}

/// What a refusal to describe an entry means for that entry.
pub open spec fn reason_of(kind: SystemErrorKind) -> BlockReason {
    match kind {
        SystemErrorKind::Missing => BlockReason::Missing,
        SystemErrorKind::Rejected => BlockReason::Malformed,
        SystemErrorKind::Other => BlockReason::Unreadable,
    }
}

/// What a refusal to describe an entry means for that entry: the one mapping both stages
/// use, so that a dialog and the log after it cannot blame different things for one entry
/// that never changed in between.
pub fn reason_for(error: &SystemError) -> (reason: BlockReason)
    ensures
        reason == reason_of(error.kind),
{
    match error.kind {
        SystemErrorKind::Missing => BlockReason::Missing,
        SystemErrorKind::Rejected => BlockReason::Malformed,
        SystemErrorKind::Other => BlockReason::Unreadable,
    }
}

/// A path the guards allow, with what is there.
#[derive(Debug, Clone, PartialEq, Eq)]
pub struct Inspected {
    /// The normalized path: what is deleted.
    pub path: String,
    /// The form the guards judged and the batch compares by.
    pub judged: String,
    pub kind: NodeKind,
}

/// A path that is not to be touched.
#[derive(Debug, Clone, PartialEq, Eq)]
pub struct Refused {
    /// The normalized path where the guards got that far, the one asked for otherwise.
    pub path: String,
    pub reason: BlockReason,
}

/// One path against the guards and the disk.
pub fn inspect(path: &str, limits: &Limits, look: &EntryLook) -> (inspected: Result<Inspected, Refused>)
    ensures
        match (inspected, verdict_on(path@, limits@, look@)) {
            (Ok(found), VerdictSpec::Ready { path: normalized, kind, judged }) => found.path@
                == normalized && found.kind == kind && found.judged@ == judged,
            (Err(refused), VerdictSpec::Blocked { path: shown, reason }) => refused.path@ == shown
                && refused.reason == reason,
            _ => false,
        },
{
    match limits.check(path, &look.look) {
        Err(reason) => Err(Refused { path: path.to_owned(), reason }),
        Ok(checked) => match &look.stat {
            Ok(kind) => Ok(Inspected { path: checked.path, judged: checked.judged, kind: *kind }),
            Err(error) => Err(Refused { path: checked.path, reason: reason_for(error) }),
        },
    }
}

/// The verdict on one entry before the batch is looked at as a whole.
pub enum Verdict {
    /// Still a candidate, with the form the batch comparison needs.
    Ready { entry: PreviewEntry, judged: String },
    /// Refused by the guards or by the disk, and so out of the comparison entirely.
    Blocked(PreviewEntry),
}

/// A verdict in specifications.
pub enum VerdictSpec {
    Ready { path: Seq<char>, kind: NodeKind, judged: Seq<char> },
    Blocked { path: Seq<char>, reason: BlockReason },
}

/// One entry against the guards and the disk: without a normalized path the one that was
/// asked for is shown.
pub open spec fn verdict_on(path: Seq<char>, limits: LimitsSpec, look: EntryLookSpec) -> VerdictSpec {
    match limits.checks(path, look.look) {
        Err(reason) => VerdictSpec::Blocked { path, reason },
        Ok((normalized, judged)) => match look.stat {
            Ok(kind) => VerdictSpec::Ready { path: normalized, kind, judged },
            Err(error) => VerdictSpec::Blocked { path: normalized, reason: reason_of(error) },
        },
    }
}

/// One entry against the guards and the disk, before the batch is looked at as a whole.
///
/// The size is the plan's throughout, while the kind is re-read for the entries that get
/// that far: a stale size costs nothing, and a stale kind deletes the wrong thing.
pub fn check_entry(entry: &PlanEntry, limits: &Limits, look: &EntryLook) -> (verdict: Verdict)
    ensures
        match (verdict, verdict_on(entry.path@, limits@, look@)) {
            (
                Verdict::Ready { entry: shown, judged },
                VerdictSpec::Ready { path, kind, judged: expected },
            ) => shown.path@ == path && shown.kind == kind && shown.size == entry.size && shown.status
                == EntryStatus::Ready && judged@ == expected,
            (Verdict::Blocked(shown), VerdictSpec::Blocked { path, reason }) => shown.path@ == path
                && shown.kind == entry.kind && shown.size == entry.size && shown.status
                == EntryStatus::Blocked(reason),
            _ => false,
        },
{
    match inspect(&entry.path, limits, look) {
        Ok(found) => Verdict::Ready {
            entry: PreviewEntry {
                path: found.path,
                kind: found.kind,
                size: entry.size,
                status: EntryStatus::Ready,
            },
            judged: found.judged,
        },
        Err(refused) => Verdict::Blocked(
            PreviewEntry {
                path: refused.path,
                kind: entry.kind,
                size: entry.size,
                status: EntryStatus::Blocked(refused.reason),
            },
        ),
    }
}

/// The verdicts on all entries of a plan.
pub open spec fn verdicts_on(
    entries: Seq<PlanEntry>,
    limits: LimitsSpec,
    looks: Seq<EntryLook>,
) -> Seq<VerdictSpec> {
    Seq::new(entries.len(), |i: int| verdict_on(entries[i].path@, limits, looks[i]@))
}

/// Whether ready entry `j` stands for ready entry `i` as well.
pub open spec fn covers(verdicts: Seq<VerdictSpec>, j: int, i: int) -> bool {
    &&& 0 <= j < verdicts.len()
    &&& j != i
    &&& verdicts[i] is Ready
    &&& verdicts[j] is Ready
    &&& within(verdicts[i]->judged, verdicts[j]->judged)
    &&& !same_path(verdicts[j]->judged, verdicts[i]->judged) || j < i
}

/// Whether another ready entry stands for entry `i`. An entry that will not be deleted
/// cannot swallow the one below it.
pub open spec fn covered(verdicts: Seq<VerdictSpec>, i: int) -> bool {
    exists|j: int| #[trigger] covers(verdicts, j, i)
}

/// How entry `i` of a plan is shown.
pub open spec fn shown_as(
    planned: PlanEntry,
    verdicts: Seq<VerdictSpec>,
    i: int,
    shown: PreviewEntry,
) -> bool {
    &&& shown.size == planned.size
    &&& match verdicts[i] {
        VerdictSpec::Ready { path, kind, judged } => {
            &&& shown.path@ == path
            &&& shown.kind == kind
            &&& shown.status == if covered(verdicts, i) {
                EntryStatus::Blocked(BlockReason::Nested)
            } else {
                EntryStatus::Ready
            }
        },
        VerdictSpec::Blocked { path, reason } => {
            &&& shown.path@ == path
            &&& shown.kind == planned.kind
            &&& shown.status == EntryStatus::Blocked(reason)
        },
    }
}

/// Positions in the plan of the entries in the comparison: ready ones, all of them, rising.
spec fn candidates(verdicts: Seq<VerdictSpec>, at: Seq<usize>, judged: Seq<String>) -> bool {
    &&& at.len() == judged.len()
    &&& forall|k: int|
        0 <= k < at.len() ==> (#[trigger] at[k]) < verdicts.len() && verdicts[at[k] as int] is Ready
            && judged[k]@ == verdicts[at[k] as int]->judged
    &&& forall|a: int, b: int| 0 <= a < b < at.len() ==> (#[trigger] at[a]) < (#[trigger] at[b])
    &&& forall|i: int|
        0 <= i < verdicts.len() && (#[trigger] verdicts[i]) is Ready ==> exists|k: int|
            0 <= k < at.len() && #[trigger] at[k] == i
}

proof fn candidates_nest(verdicts: Seq<VerdictSpec>, at: Seq<usize>, judged: Seq<String>, k: int)
    requires
        candidates(verdicts, at, judged),
        0 <= k < at.len(),
    ensures
        swallowed(texts(judged), k) == covered(verdicts, at[k] as int),
{
    let paths = texts(judged);
    let i = at[k] as int;
    if swallowed(paths, k) {
        let j = choose|j: int| #[trigger] swallows(paths, j, k);
        if j < k {
            assert(at[j] < at[k]);
        } else {
            assert(at[k] < at[j]);
        }
        assert(covers(verdicts, at[j] as int, i));
    }
    if covered(verdicts, i) {
        let j = choose|j: int| #[trigger] covers(verdicts, j, i);
        assert(verdicts[j] is Ready);
        let l = choose|l: int| 0 <= l < at.len() && #[trigger] at[l] == j;
        if j < i {
            if l > k {
                assert(at[k] < at[l]);
            }
        } else {
            if l < k {
                assert(at[l] < at[k]);
            }
        }
        assert(swallows(paths, l, k));
    }
}

/// Whether `shown` is the preview of a plan.
pub open spec fn previews(
    shown: Preview,
    plan: Plan,
    limits: LimitsSpec,
    looks: Seq<EntryLook>,
) -> bool {
    &&& shown.mode == plan.mode
    &&& shown.entries@.len() == plan.entries@.len()
    &&& forall|i: int|
        0 <= i < shown.entries@.len() ==> shown_as(
            plan.entries@[i],
            verdicts_on(plan.entries@, limits, looks),
            i,
            #[trigger] shown.entries@[i],
        )
    &&& shown.total_bytes == ready_bytes(shown.entries@, shown.entries@.len())
}

/// Checks a plan without touching anything. Every entry keeps its place in the list, so
/// the UI can show blocked ones with their reason.
pub fn preview(plan: &Plan, limits: &Limits, looks: &Vec<EntryLook>) -> (shown: Preview)
    requires
        looks@.len() == plan.entries@.len(),
        forall|i: int| 0 <= i < looks@.len() ==> look_absolute((#[trigger] looks@[i]).look@),
    ensures
        previews(shown, *plan, limits@, looks@),
{
    let ghost verdicts = verdicts_on(plan.entries@, limits@, looks@);
    let mut entries: Vec<PreviewEntry> = Vec::new();
    // Where each still-ready entry sits in `entries`, and the form to compare it by.
    let mut at: Vec<usize> = Vec::new();
    let mut judged: Vec<String> = Vec::new();
    let mut i: usize = 0;
    while i < plan.entries.len()
        invariant
            i <= plan.entries.len(),
            looks@.len() == plan.entries@.len(),
            verdicts == verdicts_on(plan.entries@, limits@, looks@),
            forall|i: int| 0 <= i < looks@.len() ==> look_absolute((#[trigger] looks@[i]).look@),
            entries@.len() == i,
            forall|k: int|
                0 <= k < i ==> match verdicts[k] {
                    VerdictSpec::Ready { path, kind, judged } => (#[trigger] entries@[k]).path@ == path
                        && entries@[k].kind == kind && entries@[k].size == plan.entries@[k].size
                        && entries@[k].status == EntryStatus::Ready,
                    VerdictSpec::Blocked { path, reason } => entries@[k].path@ == path
                        && entries@[k].kind == plan.entries@[k].kind && entries@[k].size
                        == plan.entries@[k].size && entries@[k].status == EntryStatus::Blocked(
                        reason,
                    ),
                },
            candidates(verdicts.take(i as int), at@, judged@),
            forall|k: int| 0 <= k < judged@.len() ==> absolute((#[trigger] judged@[k])@),
        decreases plan.entries.len() - i,
    {
        let ghost before = at@;
        let ghost forms = judged@;
        let ghost so_far = verdicts.take(i as int);
        let ghost upto = verdicts.take(i + 1);
        assert(look_absolute(looks@[i as int].look@));
        assert(upto =~= so_far.push(verdicts[i as int]));
        match check_entry(&plan.entries[i], limits, &looks[i]) {
            Verdict::Ready { entry, judged: form } => {
                at.push(i);
                proof {
                    judged_absolute(plan.entries@[i as int].path@, limits@, looks@[i as int]@);
                }
                judged.push(form);
                entries.push(entry);
            },
            Verdict::Blocked(entry) => {
                entries.push(entry);
            },
        }
        proof {
            assert(candidates(upto, at@, judged@)) by {
                assert forall|k: int| 0 <= k < at@.len() implies (#[trigger] at@[k]) < upto.len()
                    && upto[at@[k] as int] is Ready && judged@[k]@ == upto[at@[k] as int]->judged by {
                    if k < before.len() {
                        assert(before[k] < so_far.len());
                        assert(so_far[before[k] as int] == upto[before[k] as int]);
                    }
                }
                assert forall|a: int, b: int| 0 <= a < b < at@.len() implies (#[trigger] at@[a]) < (
                #[trigger] at@[b]) by {
                    if b < before.len() {
                        assert(before[a] < before[b]);
                    } else {
                        assert(before[a] < so_far.len());
                    }
                }
                assert forall|x: int| 0 <= x < upto.len() && (#[trigger] upto[x]) is Ready implies exists|k: int|
                    0 <= k < at@.len() && #[trigger] at@[k] == x by {
                    if x < i {
                        assert(so_far[x] is Ready);
                        let k = choose|k: int| 0 <= k < before.len() && #[trigger] before[k] == x;
                        assert(at@[k] == x);
                    } else {
                        assert(at@[before.len() as int] == x);
                    }
                }
            }
        }
        i += 1;
    }
    assert(verdicts.take(verdicts.len() as int) =~= verdicts);
    let keep: Vec<bool> = drop_nested(&judged);
    let ghost ready = entries@;
    let mut k: usize = 0;
    while k < at.len()
        invariant
            k <= at.len(),
            keep@.len() == at@.len(),
            entries@.len() == ready.len() == verdicts.len(),
            candidates(verdicts, at@, judged@),
            forall|x: int| 0 <= x < keep@.len() ==> #[trigger] keep@[x] == !swallowed(texts(judged@), x),
            forall|x: int|
                0 <= x < entries@.len() ==> (#[trigger] entries@[x]).path == ready[x].path
                    && entries@[x].kind == ready[x].kind && entries@[x].size == ready[x].size,
            forall|x: int|
                0 <= x < entries@.len() ==> (#[trigger] entries@[x]).status == if exists|l: int|
                    0 <= l < k && (#[trigger] at@[l]) == x && !keep@[l] {
                    EntryStatus::Blocked(BlockReason::Nested)
                } else {
                    ready[x].status
                },
        decreases at.len() - k,
    {
        let ghost before = entries@;
        assert((at@[k as int]) < verdicts.len());
        if !keep[k] {
            entries[at[k]].status = EntryStatus::Blocked(BlockReason::Nested);
        }
        assert forall|x: int| 0 <= x < entries@.len() implies (#[trigger] entries@[x]).status == (if exists|
            l: int,
        |
            0 <= l < k + 1 && (#[trigger] at@[l]) == x && !keep@[l] {
            EntryStatus::Blocked(BlockReason::Nested)
        } else {
            ready[x].status
        }) by {
            assert(before[x].status == if exists|l: int|
                0 <= l < k && (#[trigger] at@[l]) == x && !keep@[l] {
                EntryStatus::Blocked(BlockReason::Nested)
            } else {
                ready[x].status
            });
            if x == at@[k as int] && !keep@[k as int] {
                assert(at@[k as int] == x);
            } else {
                if exists|l: int| 0 <= l < k && (#[trigger] at@[l]) == x && !keep@[l] {
                    let l = choose|l: int| 0 <= l < k && (#[trigger] at@[l]) == x && !keep@[l];
                    assert(at@[l] == x);
                }
            }
        }
        k += 1;
    }
    proof {
        assert forall|x: int| 0 <= x < entries@.len() implies shown_as(
            plan.entries@[x],
            verdicts,
            x,
            #[trigger] entries@[x],
        ) by {
            assert(verdicts[x] == verdict_on(plan.entries@[x].path@, limits@, looks@[x]@));
            assert(ready[x].size == plan.entries@[x].size);
            if verdicts[x] is Ready {
                let l = choose|l: int| 0 <= l < at@.len() && #[trigger] at@[l] == x;
                candidates_nest(verdicts, at@, judged@, l);
                if !keep@[l] {
                    assert(at@[l] == x);
                } else if exists|m: int| 0 <= m < at@.len() && (#[trigger] at@[m]) == x && !keep@[m] {
                    let m = choose|m: int| 0 <= m < at@.len() && (#[trigger] at@[m]) == x && !keep@[m];
                    if m < l {
                        assert(at@[m] < at@[l]);
                    } else if l < m {
                        assert(at@[l] < at@[m]);
                    }
                }
            } else if exists|m: int| 0 <= m < at@.len() && (#[trigger] at@[m]) == x && !keep@[m] {
                let m = choose|m: int| 0 <= m < at@.len() && (#[trigger] at@[m]) == x && !keep@[m];
                assert(verdicts[at@[m] as int] is Ready);
            }
        }
    }
    let total_bytes: u64 = total_ready(&entries);
    Preview { entries, total_bytes, mode: plan.mode }
}

proof fn judged_absolute(path: Seq<char>, limits: LimitsSpec, look: EntryLookSpec)
    requires
        look_absolute(look.look),
        verdict_on(path, limits, look) is Ready,
    ensures
        absolute(verdict_on(path, limits, look)->judged),
{
    let name = crate::path::file_name_of(path)->0;
    let parent = look.look.parent->Ok_0;
    assert(absolute(joined(parent, name)));
}

/// The sizes of the ready entries; saturating because a promise of free space is not worth a
/// panic.
fn total_ready(entries: &Vec<PreviewEntry>) -> (total: u64)
    ensures
        total == ready_bytes(entries@, entries@.len()),
{
    let mut total: u64 = 0;
    let mut i: usize = 0;
    while i < entries.len()
        invariant
            i <= entries.len(),
            total == ready_bytes(entries@, i as nat),
        decreases entries.len() - i,
    {
        if entries[i].status == EntryStatus::Ready {
            total = total.saturating_add(entries[i].size);
        }
        i += 1;
    }
    total
}

/// What an entry that may be deleted goes through before it is.
pub enum Admission {
    /// Not to be touched: this is its outcome.
    Skipped(EntryOutcome),
    /// To be deleted, by this path: moved to the Trash or removed for good, as the mode says.
    Delete { path: String, mode: Mode },
}

/// What became of one entry, in specifications.
pub struct OutcomeSpec {
    pub path: Seq<char>,
    pub result: EntryResultSpec,
}

/// The last checks of an entry: why it is skipped and under which path, or the path to
/// delete. The guards run again on every ready entry, and the kind has to be the one the
/// preview showed.
pub open spec fn admission_of(
    entry: PreviewEntry,
    limits: LimitsSpec,
    look: EntryLookSpec,
) -> Result<Seq<char>, (Seq<char>, BlockReason)> {
    match entry.status {
        EntryStatus::Blocked(reason) => Err((entry.path@, reason)),
        EntryStatus::Ready => match limits.checks(entry.path@, look.look) {
            Err(reason) => Err((entry.path@, reason)),
            Ok((path, judged)) => match look.stat {
                Err(error) => Err((path, reason_of(error))),
                Ok(kind) => if kind != entry.kind {
                    Err((path, BlockReason::KindChanged))
                } else {
                    Ok(path)
                },
            },
        },
    }
}

/// What an attempt to delete an entry of `size` bytes came to.
pub open spec fn attempted(size: u64, attempt: Result<(), SystemError>) -> EntryResultSpec {
    match attempt {
        Ok(_) => EntryResultSpec::Removed(size),
        Err(error) => if error.kind == SystemErrorKind::Missing {
            EntryResultSpec::Skipped(BlockReason::Missing)
        } else {
            EntryResultSpec::Failed(error.message@)
        },
    }
}

/// What becomes of an entry.
pub open spec fn outcome_of(
    entry: PreviewEntry,
    limits: LimitsSpec,
    look: EntryLookSpec,
    attempt: Result<(), SystemError>,
) -> OutcomeSpec {
    match admission_of(entry, limits, look) {
        Err((path, reason)) => OutcomeSpec { path, result: EntryResultSpec::Skipped(reason) },
        Ok(path) => OutcomeSpec { path, result: attempted(entry.size, attempt) },
    }
}

/// One entry through the last checks.
///
/// A blocked entry is reported where the user left it, with the reason they were shown, and
/// is not checked again: the guards know nothing about the batch. What survives is deleted in
/// the mode of the batch.
pub fn recheck(entry: &PreviewEntry, mode: Mode, limits: &Limits, look: &EntryLook) -> (admission:
    Admission)
    ensures
        match (admission, admission_of(*entry, limits@, look@)) {
            (Admission::Skipped(outcome), Err((path, reason))) => outcome.path@ == path && outcome.kind
                == entry.kind && outcome.result@ == EntryResultSpec::Skipped(reason),
            (Admission::Delete { path, mode: given }, Ok(expected)) => path@ == expected && given
                == mode,
            _ => false,
        },
{
    if let EntryStatus::Blocked(reason) = entry.status {
        return Admission::Skipped(
            EntryOutcome {
                path: entry.path.clone(),
                kind: entry.kind,
                result: EntryResult::Skipped { reason },
            },
        );
    }
    // The path, never the judged form: this is where breaking that rule destroys something.
    let path: String = match limits.check(&entry.path, &look.look) {
        Ok(checked) => checked.path,
        Err(reason) => {
            return Admission::Skipped(
                EntryOutcome {
                    path: entry.path.clone(),
                    kind: entry.kind,
                    result: EntryResult::Skipped { reason },
                },
            );
        },
    };
    match &look.stat {
        Err(error) => Admission::Skipped(
            EntryOutcome {
                path,
                kind: entry.kind,
                result: EntryResult::Skipped { reason: reason_for(error) },
            },
        ),
        // What the preview showed the user is what they confirmed.
        Ok(kind) => if *kind != entry.kind {
            Admission::Skipped(
                EntryOutcome {
                    path,
                    kind: entry.kind,
                    result: EntryResult::Skipped { reason: BlockReason::KindChanged },
                },
            )
        } else {
            Admission::Delete { path, mode }
        },
    }
}

/// The outcome of an entry whose deletion was attempted.
///
/// An entry that went away in the meantime is skipped and not a failure: this app destroyed
/// nothing.
pub fn conclude(entry: &PreviewEntry, path: String, attempt: &Result<(), SystemError>) -> (outcome:
    EntryOutcome)
    ensures
        outcome.path == path,
        outcome.kind == entry.kind,
        outcome.result@ == attempted(entry.size, *attempt),
{
    let result: EntryResult = match attempt {
        // The size the plan carried and the dialog promised.
        Ok(_) => EntryResult::Removed { bytes: entry.size },
        Err(error) => if error.kind == SystemErrorKind::Missing {
            EntryResult::Skipped { reason: BlockReason::Missing }
        } else {
            EntryResult::Failed { message: error.message.clone() }
        },
    };
    EntryOutcome { path, kind: entry.kind, result }
}

/// What happens to one entry while a batch runs: what the disk says when its turn comes, and
/// what came of deleting it in the mode of the batch, which counts only where it was allowed.
#[derive(Debug)]
pub struct EntryRun {
    pub look: EntryLook,
    pub attempt: Result<(), SystemError>,
}

/// One entry through the last checks and, if it survives them, the deletion.
pub fn run_entry(entry: &PreviewEntry, mode: Mode, limits: &Limits, run: &EntryRun) -> (outcome:
    EntryOutcome)
    ensures
        outcome.path@ == outcome_of(*entry, limits@, run.look@, run.attempt).path,
        outcome.kind == entry.kind,
        outcome.result@ == outcome_of(*entry, limits@, run.look@, run.attempt).result,
{
    match recheck(entry, mode, limits, &run.look) {
        Admission::Skipped(outcome) => outcome,
        Admission::Delete { path, mode: _ } => conclude(entry, path, &run.attempt),
    }
}

/// The results of several outcomes.
pub open spec fn results(entries: Seq<EntryOutcome>) -> Seq<EntryResultSpec> {
    entries.map_values(|entry: EntryOutcome| entry.result@)
}

/// The outcome of a batch: its entries, and the bytes of those that were removed.
pub fn tally(entries: Vec<EntryOutcome>, at: Timestamp, mode: Mode) -> (outcome: Outcome)
    ensures
        outcome.entries == entries,
        outcome.at == at,
        outcome.mode == mode,
        outcome.freed_bytes == freed_bytes(results(entries@), entries@.len()),
{
    let mut freed: u64 = 0;
    let mut i: usize = 0;
    while i < entries.len()
        invariant
            i <= entries.len(),
            freed == freed_bytes(results(entries@), i as nat),
        decreases entries.len() - i,
    {
        assert(results(entries@)[i as int] == entries@[i as int].result@);
        // Saturating: a wrong total is not worth a panic in the middle of a batch that is
        // already deleting.
        if let EntryResult::Removed { bytes } = &entries[i].result {
            freed = freed.saturating_add(*bytes);
        }
        i += 1;
    }
    Outcome { entries, freed_bytes: freed, at, mode }
}

/// Whether `outcome` is what running `preview` came to, entry by entry.
pub open spec fn carries_out(
    outcome: Outcome,
    preview: Preview,
    limits: LimitsSpec,
    runs: Seq<EntryRun>,
    at: Timestamp,
) -> bool {
    &&& outcome.at == at
    &&& outcome.mode == preview.mode
    &&& outcome.entries@.len() == preview.entries@.len()
    &&& forall|i: int|
        0 <= i < outcome.entries@.len() ==> {
            let expected = outcome_of(
                preview.entries@[i],
                limits,
                runs[i].look@,
                runs[i].attempt,
            );
            &&& (#[trigger] outcome.entries@[i]).path@ == expected.path
            &&& outcome.entries@[i].kind == preview.entries@[i].kind
            &&& outcome.entries@[i].result@ == expected.result
        }
    &&& outcome.freed_bytes == freed_bytes(results(outcome.entries@), outcome.entries@.len())
}

/// Runs a checked preview: what becomes of every entry, in its place.
///
/// A failure does not stop the rest of the batch. The guards run again on every ready entry,
/// so a forged preview buys nothing: every deletion is guarded where it happens.
pub fn execute(preview: &Preview, limits: &Limits, runs: &Vec<EntryRun>, at: Timestamp) -> (outcome:
    Outcome)
    requires
        runs@.len() == preview.entries@.len(),
    ensures
        carries_out(outcome, *preview, limits@, runs@, at),
{
    let mut entries: Vec<EntryOutcome> = Vec::new();
    let mut i: usize = 0;
    while i < preview.entries.len()
        invariant
            i <= preview.entries.len(),
            runs@.len() == preview.entries@.len(),
            entries@.len() == i,
            forall|k: int|
                0 <= k < i ==> {
                    let expected = outcome_of(
                        preview.entries@[k],
                        limits@,
                        runs@[k].look@,
                        runs@[k].attempt,
                    );
                    &&& (#[trigger] entries@[k]).path@ == expected.path
                    &&& entries@[k].kind == preview.entries@[k].kind
                    &&& entries@[k].result@ == expected.result
                },
        decreases preview.entries.len() - i,
    {
        entries.push(run_entry(&preview.entries[i], preview.mode, limits, &runs[i]));
        i += 1;
    }
    tally(entries, at, preview.mode)
}

/// A deletion is guarded where it happens, whatever preview it came from: an entry that was
/// removed was ready, passed the guards when its turn came, and was of the kind that was
/// shown.
pub proof fn a_forged_preview_buys_nothing(
    entry: PreviewEntry,
    limits: LimitsSpec,
    look: EntryLookSpec,
    attempt: Result<(), SystemError>,
)
    requires
        outcome_of(entry, limits, look, attempt).result is Removed || outcome_of(
            entry,
            limits,
            look,
            attempt,
        ).result is Failed,
    ensures
        entry.status == EntryStatus::Ready,
        limits.checks(entry.path@, look.look) is Ok,
        look.stat == Ok::<NodeKind, SystemErrorKind>(entry.kind),
        outcome_of(entry, limits, look, attempt).path == limits.checks(
            entry.path@,
            look.look,
        )->Ok_0.0,
{
}

/// What a batch promises and what it frees agree where every entry that was ready is
/// removed.
pub proof fn a_batch_frees_what_it_promised(shown: Seq<PreviewEntry>, done: Seq<EntryResultSpec>)
    requires
        shown.len() == done.len(),
        forall|i: int|
            0 <= i < shown.len() ==> freed_by(#[trigger] done[i]) == (if shown[i].status
                == EntryStatus::Ready {
                shown[i].size
            } else {
                0
            }),
    ensures
        freed_bytes(done, done.len()) == ready_bytes(shown, shown.len()),
{
    freed_as_promised(shown, done, shown.len());
}

proof fn freed_as_promised(shown: Seq<PreviewEntry>, done: Seq<EntryResultSpec>, k: nat)
    requires
        shown.len() == done.len(),
        k <= shown.len(),
        forall|i: int|
            0 <= i < shown.len() ==> freed_by(#[trigger] done[i]) == (if shown[i].status
                == EntryStatus::Ready {
                shown[i].size
            } else {
                0
            }),
    ensures
        freed_bytes(done, k) == ready_bytes(shown, k),
    decreases k,
{
    if k > 0 {
        freed_as_promised(shown, done, (k - 1) as nat);
        assert(freed_by(done[k - 1]) == (if shown[k - 1].status == EntryStatus::Ready {
            shown[k - 1].size
        } else {
            0
        }));
    }
}

} // verus!
