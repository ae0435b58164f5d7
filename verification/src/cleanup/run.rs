//! The second stage of a cleanup batch. [`execute`] plans every request again and runs the
//! steps.
//!
//! It takes the requests, not a preview: a preview carries commands, and re-checking a
//! command proves nothing about it. So the only steps that ever run are the ones a module
//! planned in this call.
//!
//! A step is started by [`start_step`], which says what to do now, and ended by
//! [`end_delete`] or [`end_run`], which say what came of it; between the two the deletion
//! or the program happens. What happened to every step of a batch is a [`StepRun`], and
//! [`execute`] is the batch over all of them.

use super::engine::{check_target, is_reversible, looks_fit, plan_all, planned_views, planning_all};
use super::engine::{promised, reversible, target_checks, Held, Planned, PlannedSpec};
use super::model::{CleanupEntryOutcome, CleanupOutcome, Progress, Request};
use crate::action::engine::{EntryLook, SystemError, SystemErrorKind};
use crate::action::guards::{Limits, LimitsSpec};
use crate::action::model::{capped_sum, freed_by, freed_bytes, BlockReason, EntryResult};
use crate::action::model::{EntryResultSpec, EntryStatus, Mode, Timestamp};
use crate::module::step::{argv_of, line_of, step_views, CommandSpec, EffectSpec, StepSpec};
use crate::module::{ending, ending_text, invocation, lossy_text, missing_tool, not_installed};
use crate::module::{starts, stderr_tail, tail_of, Command, Effect, Invocation, Module, Output};
use crate::module::Step;
use crate::text::{copy_opt, decimal, decimal_text, opt_text, texts};
use vstd::prelude::*;

verus! {

/// How long one command of a batch may run, in seconds. Removing is slower than looking, a
/// worktree of a large repository, an image of many layers, and ten minutes is long enough
/// for either while still ending a command that hangs.
pub const STEP_TIMEOUT: u64 = 600;

/// What happened when a step's turn came. Each part counts only where the step gets that
/// far.
#[derive(Debug)]
pub struct StepRun {
    /// What the disk said about its target.
    pub look: EntryLook,
    /// What came of deleting the target.
    pub deleted: Result<(), SystemError>,
    /// What came of the command; `None` where its tool is not installed.
    pub ran: Option<Result<Output, SystemError>>,
}

/// What a refusal means once a step has already run, as the end of a failure message.
pub open spec fn refusal_text(reason: BlockReason) -> Seq<char> {
    match reason {
        BlockReason::Missing => "its target is no longer there"@,
        BlockReason::KindChanged => "its target is no longer what the preview saw"@,
        BlockReason::Unreadable => "its target cannot be read"@,
        BlockReason::OutsideRoots => "its target is outside the home folder"@,
        BlockReason::Denylisted => "its target is inside a folder this app never deletes from"@,
        BlockReason::Shielded => "its target is a folder that may not be deleted as a whole"@,
        BlockReason::IsRoot => "its target is the home folder or one above it"@,
        BlockReason::Malformed => "its target is not spelled the way it resolves"@,
        BlockReason::Nested => "another entry contains its target"@,
        BlockReason::Kept => "the item is marked keep"@,
    }
}

/// What a refusal means once a step has already run.
fn refusal(reason: BlockReason) -> (text: String)
    ensures
        text@ == refusal_text(reason),
{
    match reason {
        BlockReason::Missing => "its target is no longer there".to_owned(),
        BlockReason::KindChanged => "its target is no longer what the preview saw".to_owned(),
        BlockReason::Unreadable => "its target cannot be read".to_owned(),
        BlockReason::OutsideRoots => "its target is outside the home folder".to_owned(),
        BlockReason::Denylisted =>
            "its target is inside a folder this app never deletes from".to_owned(),
        BlockReason::Shielded =>
            "its target is a folder that may not be deleted as a whole".to_owned(),
        BlockReason::IsRoot => "its target is the home folder or one above it".to_owned(),
        BlockReason::Malformed => "its target is not spelled the way it resolves".to_owned(),
        BlockReason::Nested => "another entry contains its target".to_owned(),
        BlockReason::Kept => "the item is marked keep".to_owned(),
    }
}

/// A message about step `index` of `total`: it says which one where there are several.
pub open spec fn at_step(what: Seq<char>, index: nat, total: nat) -> Seq<char> {
    if total > 1 {
        "step "@ + decimal_text(index + 1) + " of "@ + decimal_text(total) + ", "@ + what
    } else {
        what
    }
}

fn say_at(what: &str, index: usize, total: usize) -> (text: String)
    requires
        index < total,
    ensures
        text@ == at_step(what@, index as nat, total as nat),
{
    if total > 1 {
        let mut text: String = "step ".to_owned();
        text.append(&decimal((index + 1) as u64));
        text.append(" of ");
        text.append(&decimal(total as u64));
        text.append(", ");
        text.append(what);
        text
    } else {
        what.to_owned()
    }
}

/// What a refusal of step `index` makes of the entry: nothing has been done to it before
/// the first step, and something may have changed after it.
pub open spec fn refused_at(reason: BlockReason, index: nat, total: nat) -> EntryResultSpec {
    if index > 0 {
        EntryResultSpec::Failed(at_step(refusal_text(reason), index, total))
    } else {
        EntryResultSpec::Skipped(reason)
    }
}

fn refuse(reason: BlockReason, index: usize, total: usize) -> (result: EntryResult)
    requires
        index < total,
    ensures
        result@ == refused_at(reason, index as nat, total as nat),
{
    if index > 0 {
        EntryResult::Failed { message: say_at(&refusal(reason), index, total) }
    } else {
        EntryResult::Skipped { reason }
    }
}

/// What a step came to: the target it tried to delete, the command it started, and, where it
/// did not succeed, what that makes of the entry.
#[verifier::ext_equal]
pub struct StepEnd {
    pub target: Option<Seq<char>>,
    pub command: Option<Seq<Seq<char>>>,
    pub result: Option<EntryResultSpec>,
}

/// What an attempt to delete a target makes of the entry. One that went away in the
/// meantime is a refusal: nothing was destroyed by this step.
pub open spec fn deletion_end(deleted: Result<(), SystemError>, index: nat, total: nat) -> Option<
    EntryResultSpec,
> {
    match deleted {
        Ok(_) => None,
        Err(error) => if error.kind == SystemErrorKind::Missing {
            Some(refused_at(BlockReason::Missing, index, total))
        } else {
            Some(EntryResultSpec::Failed(at_step(error.message@, index, total)))
        },
    }
}

/// What a command that did not succeed is quoted for.
pub open spec fn complaint(ran: Option<Result<Output, SystemError>>, tool: Seq<char>) -> Option<
    Seq<char>,
> {
    match ran {
        None => Some(not_installed(tool)),
        Some(Err(error)) => Some(error.message@),
        Some(Ok(output)) => if output.status == Some(0i32) {
            None
        } else {
            let said = tail_of(lossy_text(output.stderr@));
            if said.len() == 0 {
                Some(ending_text(output.status))
            } else {
                Some(ending_text(output.status) + ": "@ + said)
            }
        },
    }
}

/// What running a command makes of the entry: exit 0 or the entry's failure.
pub open spec fn command_end(
    command: CommandSpec,
    ran: Option<Result<Output, SystemError>>,
    index: nat,
    total: nat,
) -> Option<EntryResultSpec> {
    match complaint(ran, command.tool) {
        None => None,
        Some(what) => Some(
            EntryResultSpec::Failed(
                at_step("`"@ + line_of(command) + "`: "@ + what, index, total),
            ),
        ),
    }
}

/// The words of a command that started: its tool was there.
pub open spec fn started(command: CommandSpec, ran: Option<Result<Output, SystemError>>) -> Option<
    Seq<Seq<char>>,
> {
    match ran {
        None => None,
        Some(_) => Some(argv_of(command)),
    }
}

/// What step `index` of `total` comes to.
pub open spec fn step_end(
    step: StepSpec,
    index: nat,
    total: nat,
    limits: LimitsSpec,
    run: StepRun,
) -> StepEnd {
    match step {
        StepSpec::Delete(target) => match target_checks(target, false, limits, run.look@) {
            Err(reason) => StepEnd {
                target: None,
                command: None,
                result: Some(refused_at(reason, index, total)),
            },
            Ok((path, _)) => StepEnd {
                target: Some(path),
                command: None,
                result: deletion_end(run.deleted, index, total),
            },
        },
        StepSpec::Run(command, EffectSpec::Removes(target)) => match target_checks(
            target,
            true,
            limits,
            run.look@,
        ) {
            Err(reason) => StepEnd {
                target: None,
                command: None,
                result: Some(refused_at(reason, index, total)),
            },
            Ok((path, _)) => StepEnd {
                target: Some(path),
                command: started(command, run.ran),
                result: command_end(command, run.ran, index, total),
            },
        },
        StepSpec::Run(command, _) => StepEnd {
            target: None,
            command: started(command, run.ran),
            result: command_end(command, run.ran, index, total),
        },
    }
}

/// What is to be done for a step.
#[derive(Debug)]
pub enum StepStart {
    /// Nothing: this is the entry's result.
    Refused(EntryResult),
    /// Delete this path: move it to the Trash or remove it for good, as the mode says.
    Delete { path: String, mode: Mode },
    /// Run the command, which removes this path if there is one.
    Run { path: Option<String> },
}

/// Whether the disk is looked at before a step is started.
pub fn needs_look(step: &Step) -> (r: bool)
    ensures
        r == (step@ is Delete || step@ matches StepSpec::Run(_, EffectSpec::Removes(_))),
{
    match step {
        Step::Delete(_) => true,
        Step::Run { command: _, effect } => match effect {
            Effect::Removes(_) => true,
            _ => false,
        },
    }
}

/// Starts step `index` of `total`: its target once more through the guards and the disk. What
/// is deleted is deleted in the mode of the batch.
pub fn start_step(
    step: &Step,
    mode: Mode,
    index: usize,
    total: usize,
    limits: &Limits,
    look: &EntryLook,
) -> (start: StepStart)
    requires
        index < total,
    ensures
        match step@ {
            StepSpec::Delete(target) => match (
                start,
                target_checks(target, false, limits@, look@),
            ) {
                (StepStart::Delete { path, mode: given }, Ok((expected, _))) => path@ == expected
                    && given == mode,
                (StepStart::Refused(result), Err(reason)) => result@ == refused_at(
                    reason,
                    index as nat,
                    total as nat,
                ),
                _ => false,
            },
            StepSpec::Run(_, EffectSpec::Removes(target)) => match (
                start,
                target_checks(target, true, limits@, look@),
            ) {
                (StepStart::Run { path }, Ok((expected, _))) => opt_text(path) == Some(expected),
                (StepStart::Refused(result), Err(reason)) => result@ == refused_at(
                    reason,
                    index as nat,
                    total as nat,
                ),
                _ => false,
            },
            StepSpec::Run(_, _) => start matches StepStart::Run { path } && path is None,
        },
{
    match step {
        Step::Delete(target) => match check_target(target, false, limits, look) {
            Err(reason) => StepStart::Refused(refuse(reason, index, total)),
            Ok(inspected) => StepStart::Delete { path: inspected.path, mode },
        },
        Step::Run { command: _, effect } => match effect {
            Effect::Removes(target) => match check_target(target, true, limits, look) {
                Err(reason) => StepStart::Refused(refuse(reason, index, total)),
                Ok(inspected) => StepStart::Run { path: Some(inspected.path) },
            },
            Effect::Housekeeping => StepStart::Run { path: None },
            Effect::Destroys => StepStart::Run { path: None },
        },
    }
}

/// The result of an entry, where there is one, in specifications.
pub open spec fn opt_result(result: Option<EntryResult>) -> Option<EntryResultSpec> {
    match result {
        Some(result) => Some(result@),
        None => None,
    }
}

/// Ends a deletion: `None` where it succeeded, and otherwise the entry's result.
pub fn end_delete(deleted: &Result<(), SystemError>, index: usize, total: usize) -> (result: Option<
    EntryResult,
>)
    requires
        index < total,
    ensures
        opt_result(result) == deletion_end(*deleted, index as nat, total as nat),
{
    match deleted {
        Ok(_) => None,
        Err(error) => if error.kind == SystemErrorKind::Missing {
            Some(refuse(BlockReason::Missing, index, total))
        } else {
            Some(EntryResult::Failed { message: say_at(&error.message, index, total) })
        },
    }
}

/// What is started for a command of a batch: the tool where it was located and the
/// [`STEP_TIMEOUT`].
pub fn step_invocation(command: &Command, program: String) -> (given: Invocation)
    ensures
        starts(given, command@, program@, STEP_TIMEOUT),
{
    invocation(command, program, STEP_TIMEOUT)
}

/// Ends a command: `None` where it succeeded, and otherwise the entry's result.
pub fn end_run(
    command: &Command,
    ran: &Option<Result<Output, SystemError>>,
    index: usize,
    total: usize,
) -> (result: Option<EntryResult>)
    requires
        index < total,
    ensures
        opt_result(result) == command_end(command@, *ran, index as nat, total as nat),
{
    let what: String = match ran {
        None => missing_tool(&command.tool),
        Some(Err(error)) => error.message.clone(),
        Some(Ok(output)) => {
            if output.success() {
                return None;
            }
            let said: String = stderr_tail(output.stderr.as_slice());
            let mut what: String = ending(output.status);
            if crate::text::chars_of(&said).len() > 0 {
                what.append(": ");
                what.append(&said);
            }
            what
        },
    };
    let mut text: String = "`".to_owned();
    text.append(&command.line());
    text.append("`: ");
    text.append(&what);
    Some(EntryResult::Failed { message: say_at(&text, index, total) })
}

/// What running one entry produced.
#[derive(Debug)]
pub struct Ran {
    pub result: EntryResult,
    pub targets: Vec<String>,
    pub commands: Vec<Vec<String>>,
}

/// The words of several commands.
pub open spec fn word_lists(commands: Seq<Vec<String>>) -> Seq<Seq<Seq<char>>> {
    commands.map_values(|words: Vec<String>| texts(words@))
}

/// What running the first steps of an entry came to, in specifications: no result as long as
/// every one of them succeeded.
#[verifier::ext_equal]
pub struct RanSpec {
    pub result: Option<EntryResultSpec>,
    pub targets: Seq<Seq<char>>,
    pub commands: Seq<Seq<Seq<char>>>,
}

/// What running the first `k` of the steps comes to: the first that does not succeed ends
/// the entry.
pub open spec fn ran_so_far(
    steps: Seq<StepSpec>,
    limits: LimitsSpec,
    runs: Seq<StepRun>,
    k: nat,
) -> RanSpec
    decreases k,
{
    if k == 0 {
        RanSpec { result: None, targets: Seq::empty(), commands: Seq::empty() }
    } else {
        let before = ran_so_far(steps, limits, runs, (k - 1) as nat);
        if before.result is Some {
            before
        } else {
            let end = step_end(steps[k - 1], (k - 1) as nat, steps.len(), limits, runs[k - 1]);
            RanSpec {
                result: end.result,
                targets: match end.target {
                    Some(path) => before.targets.push(path),
                    None => before.targets,
                },
                commands: match end.command {
                    Some(words) => before.commands.push(words),
                    None => before.commands,
                },
            }
        }
    }
}

/// What becomes of a planned request: what refused it, or what its steps came to, and the
/// size it promised where they all succeeded.
pub open spec fn ran_entry(planned: PlannedSpec, limits: LimitsSpec, runs: Seq<StepRun>) -> RanSpec {
    match planned.status {
        EntryStatus::Blocked(reason) => RanSpec {
            result: Some(EntryResultSpec::Skipped(reason)),
            targets: Seq::empty(),
            commands: Seq::empty(),
        },
        EntryStatus::Ready => {
            let ran = ran_so_far(planned.steps, limits, runs, planned.steps.len());
            RanSpec {
                result: Some(
                    match ran.result {
                        Some(result) => result,
                        None => EntryResultSpec::Removed(planned.size),
                    },
                ),
                ..ran
            }
        },
    }
}

/// Whether `ran` is what running an entry came to.
pub open spec fn comes_to(ran: Ran, expected: RanSpec) -> bool {
    &&& expected.result == Some(ran.result@)
    &&& texts(ran.targets@) == expected.targets
    &&& word_lists(ran.commands@) == expected.commands
}

proof fn end_sticks(steps: Seq<StepSpec>, limits: LimitsSpec, runs: Seq<StepRun>, k: nat, n: nat)
    requires
        k <= n,
        ran_so_far(steps, limits, runs, k).result is Some,
    ensures
        ran_so_far(steps, limits, runs, n) == ran_so_far(steps, limits, runs, k),
    decreases n,
{
    if k < n {
        end_sticks(steps, limits, runs, k, (n - 1) as nat);
    }
}

/// A request that is not run.
pub fn not_run(reason: BlockReason) -> (ran: Ran)
    ensures
        ran.result@ == EntryResultSpec::Skipped(reason),
        ran.targets@.len() == 0,
        ran.commands@.len() == 0,
{
    Ran { result: EntryResult::Skipped { reason }, targets: Vec::new(), commands: Vec::new() }
}

/// The steps of one ready entry, in order, stopping at the first that does not succeed.
pub fn run_steps(planned: &Planned, mode: Mode, limits: &Limits, runs: &Vec<StepRun>) -> (ran: Ran)
    requires
        runs@.len() == planned.steps@.len(),
        planned.status == EntryStatus::Ready,
    ensures
        comes_to(ran, ran_entry(planned@, limits@, runs@)),
{
    let total: usize = planned.steps.len();
    let ghost steps = step_views(planned.steps@);
    let mut targets: Vec<String> = Vec::new();
    let mut commands: Vec<Vec<String>> = Vec::new();
    let mut result: Option<EntryResult> = None;
    let mut index: usize = 0;
    assert(texts(targets@) =~= Seq::empty());
    assert(word_lists(commands@) =~= Seq::empty());
    while index < total && result.is_none()
        invariant
            index <= total == planned.steps@.len() == runs@.len(),
            steps == step_views(planned.steps@),
            ran_so_far(steps, limits@, runs@, index as nat) == (RanSpec {
                result: opt_result(result),
                targets: texts(targets@),
                commands: word_lists(commands@),
            }),
        decreases total - index,
    {
        let ghost targets_before = targets@;
        let ghost commands_before = commands@;
        let run: &StepRun = &runs[index];
        let step: &Step = &planned.steps[index];
        assert(steps[index as int] == step@);
        assert(steps.len() == total);
        match start_step(step, mode, index, total, limits, &run.look) {
            StepStart::Refused(refused) => {
                result = Some(refused);
            },
            StepStart::Delete { path, mode: _ } => {
                targets.push(path);
                assert(texts(targets@) =~= texts(targets_before).push(path@));
                result = end_delete(&run.deleted, index, total);
            },
            StepStart::Run { path } => {
                if let Some(path) = path {
                    targets.push(path);
                    assert(texts(targets@) =~= texts(targets_before).push(path@));
                }
                if let Step::Run { command, effect: _ } = step {
                    if run.ran.is_some() {
                        let words: Vec<String> = command.argv();
                        commands.push(words);
                        assert(word_lists(commands@) =~= word_lists(commands_before).push(
                            texts(words@),
                        ));
                    }
                    result = end_run(command, &run.ran, index, total);
                }
            },
        }
        index += 1;
    }
    proof {
        if result is Some {
            end_sticks(steps, limits@, runs@, index as nat, total as nat);
        }
    }
    let result: EntryResult = match result {
        Some(result) => result,
        None => EntryResult::Removed { bytes: planned.size },
    };
    Ran { result, targets, commands }
}

/// Whether `outcome` is what became of a planned request.
pub open spec fn becomes(
    outcome: CleanupEntryOutcome,
    planned: PlannedSpec,
    mode: Mode,
    ran: RanSpec,
) -> bool {
    &&& outcome.item@ == planned.item_id
    &&& outcome.module@ == planned.module
    &&& outcome.title@ == planned.title
    &&& outcome.action@ == planned.action
    &&& opt_text(outcome.path) == planned.path
    &&& outcome.kind == planned.kind
    &&& texts(outcome.targets@) == ran.targets
    &&& outcome.mode == if is_reversible(planned.steps, mode) {
        mode
    } else {
        Mode::Permanent
    }
    &&& word_lists(outcome.commands@) == ran.commands
    &&& ran.result == Some(outcome.result@)
}

/// What became of a planned request.
pub fn conclude(planned: &Planned, mode: Mode, ran: Ran) -> (outcome: CleanupEntryOutcome)
    ensures
        forall|expected: RanSpec|
            comes_to(ran, expected) ==> #[trigger] becomes(outcome, planned@, mode, expected),
{
    CleanupEntryOutcome {
        item: planned.item_id.clone(),
        module: planned.module.clone(),
        title: planned.title.clone(),
        action: planned.action.clone(),
        path: copy_opt(&planned.path),
        kind: planned.kind,
        targets: ran.targets,
        mode: if reversible(&planned.steps, mode) {
            mode
        } else {
            Mode::Permanent
        },
        commands: ran.commands,
        result: ran.result,
    }
}

/// The results of several outcomes.
pub open spec fn results(entries: Seq<CleanupEntryOutcome>) -> Seq<EntryResultSpec> {
    entries.map_values(|entry: CleanupEntryOutcome| entry.result@)
}

/// The outcome of a batch: its entries, and the bytes of those that were removed.
pub fn tally(entries: Vec<CleanupEntryOutcome>, at: Timestamp, mode: Mode) -> (outcome: CleanupOutcome)
    ensures
        outcome.entries == entries,
        outcome.at == at,
        outcome.mode == mode,
        outcome.freed_bytes == freed_bytes(results(entries@), entries@.len()),
{
    let mut freed: u64 = 0;
    let mut i: usize = 0;
    while i < entries.len()
        invariant
            i <= entries.len(),
            freed == freed_bytes(results(entries@), i as nat),
        decreases entries.len() - i,
    {
        assert(results(entries@)[i as int] == entries@[i as int].result@);
        if let EntryResult::Removed { bytes } = &entries[i].result {
            freed = freed.saturating_add(*bytes);
        }
        i += 1;
    }
    CleanupOutcome { entries, freed_bytes: freed, at, mode }
}

/// How far a batch has got once `done` of its entries are over.
pub fn progress_at(planned: &Vec<Planned>, done: usize) -> (progress: Progress)
    requires
        done <= planned.len(),
    ensures
        progress.done == done,
        progress.total == planned@.len(),
        opt_text(progress.current) == if done < planned@.len() {
            Some(planned@[done as int].title@)
        } else {
            None
        },
{
    Progress {
        done,
        total: planned.len(),
        current: if done < planned.len() {
            Some(planned[done].title.clone())
        } else {
            None
        },
    }
}

/// Whether `reports` are what is reported while a batch runs: one before every entry and one
/// at the end.
pub open spec fn reports_all(reports: Seq<Progress>, planned: Seq<PlannedSpec>) -> bool {
    &&& reports.len() == planned.len() + 1
    &&& forall|i: int|
        0 <= i < reports.len() ==> (#[trigger] reports[i]).done == i && reports[i].total
            == planned.len() && opt_text(reports[i].current) == if i < planned.len() {
            Some(planned[i].title)
        } else {
            None
        }
}

/// What happened fits what was planned: one run per step of every ready entry.
pub open spec fn runs_fit(planned: Seq<PlannedSpec>, runs: Seq<Vec<StepRun>>) -> bool {
    &&& runs.len() == planned.len()
    &&& forall|i: int|
        0 <= i < planned.len() && planned[i].status == EntryStatus::Ready ==> (
        #[trigger] runs[i])@.len() == planned[i].steps.len()
}

/// Whether `outcome` is what a batch comes to and `reports` what is reported on the way, the
/// requests being planned as `planned` and the steps going as `runs` says.
pub open spec fn runs_through(
    outcome: CleanupOutcome,
    reports: Seq<Progress>,
    planned: Seq<PlannedSpec>,
    limits: LimitsSpec,
    runs: Seq<Vec<StepRun>>,
    mode: Mode,
    at: Timestamp,
) -> bool {
    &&& outcome.at == at
    &&& outcome.mode == mode
    &&& outcome.entries@.len() == planned.len()
    &&& forall|i: int|
        0 <= i < planned.len() ==> becomes(
            #[trigger] outcome.entries@[i],
            planned[i],
            mode,
            ran_entry(planned[i], limits, runs[i]@),
        )
    &&& outcome.freed_bytes == freed_bytes(results(outcome.entries@), outcome.entries@.len())
    &&& reports_all(reports, planned)
}

/// Plans every request again and runs the steps of the ready ones, entry by entry: what
/// became of each, and what was reported on the way.
///
/// A failure ends its entry and never the batch. An entry refused before its first step ran
/// is `Skipped`, because nothing was touched; one refused or failed after a step ran is
/// `Failed`, because something may have changed.
pub fn execute<M: Module>(
    requests: &Vec<Request>,
    held: &Held<M>,
    limits: &Limits,
    looks: &Vec<Vec<EntryLook>>,
    runs: &Vec<Vec<StepRun>>,
    mode: Mode,
    at: Timestamp,
) -> (done: (CleanupOutcome, Vec<Progress>))
    requires
        looks_fit(requests@, held.all(), looks@, mode),
        runs_fit(planning_all(requests@, held.all(), limits@, looks@, mode), runs@),
    ensures
        runs_through(
            done.0,
            done.1@,
            planning_all(requests@, held.all(), limits@, looks@, mode),
            limits@,
            runs@,
            mode,
            at,
        ),
{
    let planned: Vec<Planned> = plan_all(requests, held, limits, looks, mode);
    let ghost all = planned_views(planned@);
    let mut entries: Vec<CleanupEntryOutcome> = Vec::new();
    let mut reports: Vec<Progress> = Vec::new();
    let mut i: usize = 0;
    assert(all.len() == planned@.len());
    while i < planned.len()
        invariant
            i <= planned.len(),
            all == planned_views(planned@),
            all.len() == planned@.len(),
            runs_fit(all, runs@),
            entries@.len() == i,
            forall|k: int|
                0 <= k < i ==> becomes(
                    #[trigger] entries@[k],
                    all[k],
                    mode,
                    ran_entry(all[k], limits@, runs@[k]@),
                ),
            reports@.len() == i,
            forall|k: int|
                0 <= k < i ==> (#[trigger] reports@[k]).done == k && reports@[k].total == all.len()
                    && opt_text(reports@[k].current) == Some(all[k].title),
        decreases planned.len() - i,
    {
        assert(all[i as int] == planned@[i as int]@);
        reports.push(progress_at(&planned, i));
        let ghost expected = ran_entry(all[i as int], limits@, runs@[i as int]@);
        let ran: Ran = match planned[i].status {
            EntryStatus::Blocked(reason) => {
                let ran: Ran = not_run(reason);
                assert(texts(ran.targets@) =~= Seq::empty());
                assert(word_lists(ran.commands@) =~= Seq::empty());
                ran
            },
            EntryStatus::Ready => {
                assert(runs@[i as int]@.len() == all[i as int].steps.len());
                run_steps(&planned[i], mode, limits, &runs[i])
            },
        };
        assert(comes_to(ran, expected));
        let outcome: CleanupEntryOutcome = conclude(&planned[i], mode, ran);
        assert(becomes(outcome, planned@[i as int]@, mode, expected));
        entries.push(outcome);
        i += 1;
    }
    reports.push(progress_at(&planned, planned.len()));
    (tally(entries, at, mode), reports)
}

/// An entry that was skipped was not touched: no command of it started, and if it was ready,
/// its first step is the one that was refused.
pub proof fn a_skipped_entry_was_not_touched(
    planned: PlannedSpec,
    limits: LimitsSpec,
    runs: Seq<StepRun>,
)
    requires
        ran_entry(planned, limits, runs).result matches Some(EntryResultSpec::Skipped(_)),
    ensures
        ran_entry(planned, limits, runs).commands.len() == 0,
        planned.status == EntryStatus::Ready ==> planned.steps.len() > 0 && step_end(
            planned.steps[0],
            0,
            planned.steps.len(),
            limits,
            runs[0],
        ).result == ran_entry(planned, limits, runs).result,
{
    if planned.status == EntryStatus::Ready {
        skipped_at_first(planned.steps, limits, runs, planned.steps.len());
    }
}

proof fn skipped_at_first(steps: Seq<StepSpec>, limits: LimitsSpec, runs: Seq<StepRun>, k: nat)
    requires
        k <= steps.len(),
        ran_so_far(steps, limits, runs, k).result matches Some(EntryResultSpec::Skipped(_)),
    ensures
        k > 0,
        ran_so_far(steps, limits, runs, k).commands.len() == 0,
        step_end(steps[0], 0, steps.len(), limits, runs[0]).result == ran_so_far(
            steps,
            limits,
            runs,
            k,
        ).result,
    decreases k,
{
    let before = ran_so_far(steps, limits, runs, (k - 1) as nat);
    if before.result is Some {
        skipped_at_first(steps, limits, runs, (k - 1) as nat);
    } else {
        assert(step_end(
            steps[k - 1],
            (k - 1) as nat,
            steps.len(),
            limits,
            runs[k - 1],
        ).result matches Some(EntryResultSpec::Skipped(_)));
        assert(k == 1);
    }
}

/// An entry is removed only where every step of it succeeded.
pub proof fn a_removed_entry_ran_to_its_end(
    planned: PlannedSpec,
    limits: LimitsSpec,
    runs: Seq<StepRun>,
    i: int,
)
    requires
        ran_entry(planned, limits, runs).result matches Some(EntryResultSpec::Removed(_)),
        0 <= i < planned.steps.len(),
    ensures
        planned.status == EntryStatus::Ready,
        step_end(planned.steps[i], i as nat, planned.steps.len(), limits, runs[i]).result is None,
        ran_entry(planned, limits, runs).result == Some(EntryResultSpec::Removed(planned.size)),
{
    never_removed_early(planned.steps, limits, runs, planned.steps.len());
    still_running(planned.steps, limits, runs, planned.steps.len(), i);
}

proof fn never_removed_early(steps: Seq<StepSpec>, limits: LimitsSpec, runs: Seq<StepRun>, k: nat)
    ensures
        !(ran_so_far(steps, limits, runs, k).result matches Some(EntryResultSpec::Removed(_))),
    decreases k,
{
    if k > 0 {
        never_removed_early(steps, limits, runs, (k - 1) as nat);
    }
}

proof fn still_running(
    steps: Seq<StepSpec>,
    limits: LimitsSpec,
    runs: Seq<StepRun>,
    k: nat,
    i: int,
)
    requires
        0 <= i < k,
        ran_so_far(steps, limits, runs, k).result is None,
    ensures
        step_end(steps[i], i as nat, steps.len(), limits, runs[i]).result is None,
    decreases k,
{
    if i < k - 1 {
        still_running(steps, limits, runs, (k - 1) as nat, i);
    }
}

/// What a batch promised and what it frees agree where every ready entry is removed.
pub proof fn a_cleanup_frees_what_it_promised(
    planned: Seq<PlannedSpec>,
    done: Seq<EntryResultSpec>,
    k: nat,
)
    requires
        planned.len() == done.len(),
        k <= planned.len(),
        forall|i: int|
            0 <= i < planned.len() ==> #[trigger] done[i] == match planned[i].status {
                EntryStatus::Ready => EntryResultSpec::Removed(planned[i].size),
                EntryStatus::Blocked(reason) => EntryResultSpec::Skipped(reason),
            },
    ensures
        freed_bytes(done, k) == promised(planned, k),
    decreases k,
{
    if k > 0 {
        a_cleanup_frees_what_it_promised(planned, done, (k - 1) as nat);
        assert(freed_by(done[k - 1]) == if planned[k - 1].status == EntryStatus::Ready {
            planned[k - 1].size
        } else {
            0
        });
        assert(capped_sum(freed_bytes(done, (k - 1) as nat), 0) == freed_bytes(
            done,
            (k - 1) as nat,
        ));
    }
}

/// Whether step `i` is what deletes `path`: its target passed the guards when its turn came,
/// and `path` is what they made of it.
pub open spec fn guarded(
    steps: Seq<StepSpec>,
    limits: LimitsSpec,
    runs: Seq<StepRun>,
    i: int,
    path: Seq<char>,
) -> bool {
    &&& 0 <= i < steps.len()
    &&& match steps[i] {
        StepSpec::Delete(target) => {
            let checked = target_checks(target, false, limits, runs[i].look@);
            checked is Ok && checked->Ok_0.0 == path
        },
        StepSpec::Run(_, EffectSpec::Removes(target)) => {
            let checked = target_checks(target, true, limits, runs[i].look@);
            checked is Ok && checked->Ok_0.0 == path
        },
        _ => false,
    }
}

/// Every target a batch tries to delete passed the guards when its turn came, whatever the
/// preview showed.
pub proof fn every_deletion_is_guarded(
    planned: PlannedSpec,
    limits: LimitsSpec,
    runs: Seq<StepRun>,
    path: Seq<char>,
)
    requires
        ran_entry(planned, limits, runs).targets.contains(path),
    ensures
        planned.status == EntryStatus::Ready,
        exists|i: int| #[trigger] guarded(planned.steps, limits, runs, i, path),
{
    guarded_so_far(planned.steps, limits, runs, planned.steps.len(), path);
}

proof fn guarded_so_far(
    steps: Seq<StepSpec>,
    limits: LimitsSpec,
    runs: Seq<StepRun>,
    k: nat,
    path: Seq<char>,
)
    requires
        k <= steps.len(),
        ran_so_far(steps, limits, runs, k).targets.contains(path),
    ensures
        exists|i: int| #[trigger] guarded(steps, limits, runs, i, path),
    decreases k,
{
    if k > 0 {
        let before = ran_so_far(steps, limits, runs, (k - 1) as nat);
        if before.targets.contains(path) {
            guarded_so_far(steps, limits, runs, (k - 1) as nat, path);
        } else {
            let end = step_end(steps[k - 1], (k - 1) as nat, steps.len(), limits, runs[k - 1]);
            let now = ran_so_far(steps, limits, runs, k).targets;
            let at = choose|at: int| 0 <= at < now.len() && now[at] == path;
            if at < before.targets.len() {
                assert(before.targets[at] == path);
            }
            assert(end.target == Some(path));
            assert(guarded(steps, limits, runs, k - 1, path));
        }
    }
}

} // verus!
