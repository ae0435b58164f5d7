//! The first stage of a cleanup batch. [`preview`] plans every request and checks it,
//! touching nothing.
//!
//! Every request comes back, in its place, whether or not it survived the checks: the
//! dialog lists what the user ticked next to what will happen to each row, exactly as the
//! Explorer's does. What the disk says about the targets of a plan comes in as plain values,
//! one [`EntryLook`] per target in the order [`targets`] gives them.

use super::model::{CleanupEntry, CleanupPreview, EffectView, Request, StepView, StepViewSpec};
use crate::action::engine::{inspect, verdict_on, EntryLook, EntryLookSpec, Inspected, VerdictSpec};
use crate::action::guards::{Limits, LimitsSpec};
use crate::action::model::{capped_sum, BlockReason, EntryStatus, Mode};
use crate::module::item::{action_of, option_of};
use crate::module::step::{line_of, pairs, step_views, EffectSpec, StepSpec, TargetSpec};
use crate::module::{ActionSpec, Effect, Item, Level, Module, Step, Target};
use crate::path::{same_path, same_paths, starts_with, within};
use crate::scan::tree::NodeKind;
use crate::text::{copy_opt, opt_text, same, texts};
use vstd::prelude::*;

verus! {

/// The latest discovery results, by item id, each with the module it came from.
pub struct Held<'a, M: Module> {
    items: Vec<(&'a M, &'a Item)>,
}

/// Every item of several discoveries, in their order.
pub open spec fn all_found<'a, M: Module>(results: Seq<(&'a M, &'a Vec<Item>)>) -> Seq<
    (&'a M, &'a Item),
>
    decreases results.len(),
{
    if results.len() == 0 {
        Seq::empty()
    } else {
        let (module, found) = results.last();
        all_found(results.drop_last()) + found@.map_values(|item: Item| (module, &item))
    }
}

/// The item with this id and its module. Where several have it, the last one counts.
pub open spec fn held_in<'a, M: Module>(all: Seq<(&'a M, &'a Item)>, id: Seq<char>) -> Option<
    (&'a M, &'a Item),
>
    decreases all.len(),
{
    if all.len() == 0 {
        None
    } else if all.last().1.id@ == id {
        Some(all.last())
    } else {
        held_in(all.drop_last(), id)
    }
}

impl<'a, M: Module> Held<'a, M> {
    /// Every item that was handed in.
    pub closed spec fn all(self) -> Seq<(&'a M, &'a Item)> {
        self.items@
    }

    /// What the modules found, in the order they are given.
    pub fn new(results: &Vec<(&'a M, &'a Vec<Item>)>) -> (held: Held<'a, M>)
        ensures
            held.all() == all_found(results@),
    {
        let mut items: Vec<(&'a M, &'a Item)> = Vec::new();
        let mut i: usize = 0;
        assert(results@.take(0) =~= Seq::empty());
        while i < results.len()
            invariant
                i <= results.len(),
                items@ == all_found(results@.take(i as int)),
            decreases results.len() - i,
        {
            let module: &'a M = results[i].0;
            let found: &'a Vec<Item> = results[i].1;
            let ghost before = items@;
            let ghost more = found@.map_values(|item: Item| (module, &item));
            let mut k: usize = 0;
            assert(before + more.take(0) =~= before);
            while k < found.len()
                invariant
                    k <= found.len(),
                    more == found@.map_values(|item: Item| (module, &item)),
                    items@ == before + more.take(k as int),
                decreases found.len() - k,
            {
                items.push((module, &found[k]));
                assert(more.take(k + 1) =~= more.take(k as int).push(more[k as int]));
                assert(items@ =~= before + more.take(k + 1));
                k += 1;
            }
            assert(more.take(more.len() as int) =~= more);
            assert(results@.take(i + 1).drop_last() =~= results@.take(i as int));
            assert(results@.take(i + 1).last() == results@[i as int]);
            i += 1;
        }
        assert(results@.take(results@.len() as int) =~= results@);
        Held { items }
    }

    /// The item with this id, with the module it came from.
    pub fn get(&self, id: &str) -> (found: Option<(&'a M, &'a Item)>)
        ensures
            found == held_in(self.all(), id@),
    {
        let mut i: usize = self.items.len();
        assert(self.items@.take(i as int) =~= self.items@);
        while i > 0
            invariant
                i <= self.items.len(),
                held_in(self.all(), id@) == held_in(self.items@.take(i as int), id@),
            decreases i,
        {
            i -= 1;
            assert(self.items@.take(i + 1).drop_last() =~= self.items@.take(i as int));
            assert(self.items@.take(i + 1).last() == self.items@[i as int]);
            if same(&self.items[i].1.id, id) {
                return Some(self.items[i]);
            }
        }
        None
    }
}

/// A request that passed the rules that need no disk: the item is held, it offers the
/// action and the options, and a Keep verdict is forced.
pub struct Screened<'a, M: Module> {
    pub module: &'a M,
    pub item: &'a Item,
    pub action: &'a ActionSpec,
}

/// Whether one of the options asked for is not one of the action's.
pub open spec fn asks_for_more(action: ActionSpec, options: Seq<Seq<char>>) -> bool {
    exists|k: int| 0 <= k < options.len() && option_of(action, #[trigger] options[k]) is None
}

/// Whether one of the options asked for lifts a Keep verdict.
pub open spec fn forces(action: ActionSpec, options: Seq<Seq<char>>) -> bool {
    exists|k: int|
        0 <= k < options.len() && option_of(action, #[trigger] options[k]) is Some && option_of(
            action,
            options[k],
        )->0.force
}

/// The first three rules, in order; the first that applies decides: the item is held, it
/// offers the action with the options, and a Keep verdict is forced.
pub open spec fn screening<'a, M: Module>(request: Request, all: Seq<(&'a M, &'a Item)>) -> Result<
    (&'a M, &'a Item, ActionSpec),
    BlockReason,
> {
    match held_in(all, request.item@) {
        None => Err(BlockReason::Missing),
        Some((module, item)) => match action_of(*item, request.action@) {
            None => Err(BlockReason::KindChanged),
            Some(action) => if asks_for_more(action, texts(request.options@)) {
                Err(BlockReason::KindChanged)
            } else if item.verdict.level == Level::Keep && !forces(
                action,
                texts(request.options@),
            ) {
                Err(BlockReason::Kept)
            } else {
                Ok((module, item, action))
            },
        },
    }
}

/// The first three rules, in order; the first that applies decides.
pub fn screen<'a, M: Module>(request: &Request, held: &Held<'a, M>) -> (screened: Result<
    Screened<'a, M>,
    BlockReason,
>)
    ensures
        match (screened, screening(*request, held.all())) {
            (Ok(found), Ok((module, item, action))) => found.module == module && found.item == item
                && *found.action == action,
            (Err(reason), Err(expected)) => reason == expected,
            _ => false,
        },
{
    // 1. Not among the held results: rediscovered away, or never there.
    let (module, item): (&'a M, &'a Item) = match held.get(&request.item) {
        Some(found) => found,
        None => {
            return Err(BlockReason::Missing);
        },
    };
    // 2. The item is no longer what the screen showed: it does not offer the action, or
    //    the action has no such option.
    let action: &'a ActionSpec = match item.action(&request.action) {
        Some(action) => action,
        None => {
            return Err(BlockReason::KindChanged);
        },
    };
    let ghost options = texts(request.options@);
    let mut forced: bool = false;
    let mut i: usize = 0;
    while i < request.options.len()
        invariant
            i <= request.options.len(),
            options == texts(request.options@),
            screening(*request, held.all()) == (if asks_for_more(*action, options) {
                Err(BlockReason::KindChanged)
            } else if item.verdict.level == Level::Keep && !forces(*action, options) {
                Err(BlockReason::Kept)
            } else {
                Ok((module, item, *action))
            }),
            forall|k: int| 0 <= k < i ==> option_of(*action, #[trigger] options[k]) is Some,
            forced == exists|k: int|
                0 <= k < i && option_of(*action, #[trigger] options[k]) is Some && option_of(
                    *action,
                    options[k],
                )->0.force,
        decreases request.options.len() - i,
    {
        assert(options[i as int] == request.options@[i as int]@);
        match action.option(&request.options[i]) {
            None => {
                return Err(BlockReason::KindChanged);
            },
            Some(option) => {
                forced = forced || option.force;
            },
        }
        i += 1;
    }
    // 3. A Keep verdict is lifted by a `force` option and by nothing else, not by an
    //    ordinary option that happens to be on.
    if item.verdict.level == Level::Keep && !forced {
        return Err(BlockReason::Kept);
    }
    Ok(Screened { module, item, action })
}

/// Whether the Trash can undo a step.
pub open spec fn undoable(step: StepSpec) -> bool {
    step is Delete || step matches StepSpec::Run(_, EffectSpec::Housekeeping)
}

/// Whether the Trash can undo `steps` in `mode`.
pub open spec fn is_reversible(steps: Seq<StepSpec>, mode: Mode) -> bool {
    mode == Mode::Trash && forall|i: int| 0 <= i < steps.len() ==> undoable(#[trigger] steps[i])
}

/// Whether the Trash can undo `steps` in `mode`: the mode is Trash, and every step is a
/// `Delete` or housekeeping. A command that destroys or removes something is never undone
/// by the Trash, whatever the batch's mode.
pub fn reversible(steps: &Vec<Step>, mode: Mode) -> (r: bool)
    ensures
        r == is_reversible(step_views(steps@), mode),
{
    let ghost all = step_views(steps@);
    if mode != Mode::Trash {
        return false;
    }
    let mut i: usize = 0;
    while i < steps.len()
        invariant
            i <= steps.len(),
            all == step_views(steps@),
            mode == Mode::Trash,
            forall|k: int| 0 <= k < i ==> undoable(#[trigger] all[k]),
        decreases steps.len() - i,
    {
        assert(all[i as int] == steps@[i as int]@);
        let fine: bool = match &steps[i] {
            Step::Delete(_) => true,
            Step::Run { command: _, effect } => match effect {
                Effect::Housekeeping => true,
                _ => false,
            },
        };
        if !fine {
            assert(!undoable(all[i as int]));
            return false;
        }
        i += 1;
    }
    true
}

/// Every target the steps delete, with whether a command deletes it.
pub open spec fn targets_of(steps: Seq<StepSpec>) -> Seq<(TargetSpec, bool)>
    decreases steps.len(),
{
    if steps.len() == 0 {
        Seq::empty()
    } else {
        let before = targets_of(steps.drop_last());
        match steps.last() {
            StepSpec::Delete(target) => before.push((target, false)),
            StepSpec::Run(_, EffectSpec::Removes(target)) => before.push((target, true)),
            StepSpec::Run(_, _) => before,
        }
    }
}

/// Several targets in specifications.
pub open spec fn target_views(targets: Seq<(&Target, bool)>) -> Seq<(TargetSpec, bool)> {
    targets.map_values(|target: (&Target, bool)| (target.0@, target.1))
}

/// Every target the steps delete, with whether a command (rather than the app) deletes it.
pub fn targets<'a>(steps: &'a Vec<Step>) -> (list: Vec<(&'a Target, bool)>)
    ensures
        target_views(list@) == targets_of(step_views(steps@)),
{
    let ghost all = step_views(steps@);
    let mut list: Vec<(&'a Target, bool)> = Vec::new();
    let mut i: usize = 0;
    assert(all.take(0) =~= Seq::empty());
    assert(target_views(list@) =~= Seq::empty());
    while i < steps.len()
        invariant
            i <= steps.len(),
            all == step_views(steps@),
            target_views(list@) == targets_of(all.take(i as int)),
        decreases steps.len() - i,
    {
        let ghost before = list@;
        assert(all.take(i + 1).drop_last() =~= all.take(i as int));
        assert(all.take(i + 1).last() == steps@[i as int]@);
        match &steps[i] {
            Step::Delete(target) => {
                list.push((target, false));
                assert(target_views(list@) =~= target_views(before).push((target@, false)));
            },
            Step::Run { command: _, effect } => match effect {
                Effect::Removes(target) => {
                    list.push((target, true));
                    assert(target_views(list@) =~= target_views(before).push((target@, true)));
                },
                _ => {},
            },
        }
        i += 1;
    }
    assert(all.take(all.len() as int) =~= all);
    list
}

/// One target through the guards, the disk and the kind the module saw: its normalized and
/// its judged form, or why it is refused. A target a command removes has to be spelled the
/// way the guards resolve it.
pub open spec fn target_checks(
    target: TargetSpec,
    removes: bool,
    limits: LimitsSpec,
    look: EntryLookSpec,
) -> Result<(Seq<char>, Seq<char>), BlockReason> {
    match verdict_on(target.path, limits, look) {
        VerdictSpec::Blocked { path, reason } => Err(reason),
        VerdictSpec::Ready { path, kind, judged } => if kind != target.kind {
            Err(BlockReason::KindChanged)
        } else if removes && !same_path(path, target.path) {
            Err(BlockReason::Malformed)
        } else {
            Ok((path, judged))
        },
    }
}

/// One target through the guards, the disk and the kind the module saw.
///
/// A target a command removes has one rule more: it must be spelled the way the guards
/// resolve it. A `Delete` deletes the normalized path, whatever the module wrote; a command
/// is handed the module's spelling and resolves it itself, later, through a symlinked
/// folder, say, that pointed somewhere else by then. A target that resolves to another
/// spelling is a bug in the module, and refused rather than run.
pub fn check_target(target: &Target, removes: bool, limits: &Limits, look: &EntryLook) -> (checked:
    Result<Inspected, BlockReason>)
    ensures
        match (checked, target_checks(target@, removes, limits@, look@)) {
            (Ok(inspected), Ok((path, judged))) => inspected.path@ == path && inspected.judged@ == judged
                && inspected.kind == target.kind,
            (Err(reason), Err(expected)) => reason == expected,
            _ => false,
        },
{
    let inspected: Inspected = match inspect(&target.path, limits, look) {
        Ok(inspected) => inspected,
        Err(refused) => {
            return Err(refused.reason);
        },
    };
    if inspected.kind != target.kind {
        return Err(BlockReason::KindChanged);
    }
    if removes && !same_paths(&inspected.path, &target.path) {
        return Err(BlockReason::Malformed);
    }
    Ok(inspected)
}

/// One request, planned and checked.
#[derive(Debug)]
pub struct Planned {
    pub item_id: String,
    pub module: String,
    pub title: String,
    pub action: String,
    pub path: Option<String>,
    /// The kind of the target whose path is the item's path.
    pub kind: Option<NodeKind>,
    pub steps: Vec<Step>,
    /// Each target's normalized path behind the path the module wrote, for the ones the
    /// preview got to look at: what the dialog shows.
    pub inspected: Vec<(String, String)>,
    /// The judged forms of the targets, for the nesting rule.
    pub judged: Vec<String>,
    pub size: u64,
    pub status: EntryStatus,
}

/// A [`Planned`] in specifications.
#[verifier::ext_equal]
pub struct PlannedSpec {
    pub item_id: Seq<char>,
    pub module: Seq<char>,
    pub title: Seq<char>,
    pub action: Seq<char>,
    pub path: Option<Seq<char>>,
    pub kind: Option<NodeKind>,
    pub steps: Seq<StepSpec>,
    pub inspected: Seq<(Seq<char>, Seq<char>)>,
    pub judged: Seq<Seq<char>>,
    pub size: u64,
    pub status: EntryStatus,
}

impl View for Planned {
    type V = PlannedSpec;

    open spec fn view(&self) -> PlannedSpec {
        PlannedSpec {
            item_id: self.item_id@,
            module: self.module@,
            title: self.title@,
            action: self.action@,
            path: opt_text(self.path),
            kind: self.kind,
            steps: step_views(self.steps@),
            inspected: pairs(self.inspected@),
            judged: texts(self.judged@),
            size: self.size,
            status: self.status,
        }
    }
}

/// Several planned requests in specifications.
pub open spec fn planned_views(planned: Seq<Planned>) -> Seq<PlannedSpec> {
    planned.map_values(|entry: Planned| entry@)
}

/// Several looks in specifications.
pub open spec fn look_views(looks: Seq<EntryLook>) -> Seq<EntryLookSpec> {
    looks.map_values(|look: EntryLook| look@)
}

/// What a request is called, before anything is decided about it.
pub open spec fn named<M: Module>(request: Request, all: Seq<(&M, &Item)>) -> PlannedSpec {
    let known = held_in(all, request.item@);
    let action = match known {
        Some((_, item)) => action_of(*item, request.action@),
        None => None,
    };
    PlannedSpec {
        item_id: request.item@,
        module: match known {
            Some((_, item)) => item.module@,
            None => Seq::empty(),
        },
        title: match known {
            Some((_, item)) => item.title@,
            None => request.item@,
        },
        action: match action {
            Some(action) => action.label@,
            None => request.action@,
        },
        path: match known {
            Some((_, item)) => opt_text(item.path),
            None => None,
        },
        kind: None,
        steps: Seq::empty(),
        inspected: Seq::empty(),
        judged: Seq::empty(),
        size: match action {
            Some(action) => action.estimated_free,
            None => 0,
        },
        status: EntryStatus::Ready,
    }
}

/// The steps a request comes to: none where it is refused before it is planned.
pub open spec fn steps_for<M: Module>(request: Request, all: Seq<(&M, &Item)>, mode: Mode) -> Seq<
    StepSpec,
> {
    match screening(request, all) {
        Err(_) => Seq::empty(),
        Ok((module, item, action)) => module.planned(*item, action, texts(request.options@), mode),
    }
}

/// The kind of the first target at `path`.
pub open spec fn kind_at(targets: Seq<(TargetSpec, bool)>, path: Option<Seq<char>>) -> Option<NodeKind>
    decreases targets.len(),
{
    if targets.len() == 0 || path is None {
        None
    } else {
        match kind_at(targets.drop_last(), path) {
            Some(kind) => Some(kind),
            None => if same_path(targets.last().0.path, path->0) {
                Some(targets.last().0.kind)
            } else {
                None
            },
        }
    }
}

/// What came of looking at the first `k` targets: the first refusal decides.
pub struct LookedAt {
    pub inspected: Seq<(Seq<char>, Seq<char>)>,
    pub judged: Seq<Seq<char>>,
    pub refusal: Option<BlockReason>,
}

/// What comes of looking at the first `k` targets.
pub open spec fn looked_at(
    targets: Seq<(TargetSpec, bool)>,
    limits: LimitsSpec,
    looks: Seq<EntryLookSpec>,
    k: nat,
) -> LookedAt
    decreases k,
{
    if k == 0 {
        LookedAt { inspected: Seq::empty(), judged: Seq::empty(), refusal: None }
    } else {
        let before = looked_at(targets, limits, looks, (k - 1) as nat);
        let (target, removes) = targets[k - 1];
        if before.refusal is Some {
            before
        } else {
            match target_checks(target, removes, limits, looks[k - 1]) {
                Err(reason) => LookedAt { refusal: Some(reason), ..before },
                Ok((path, judged)) => LookedAt {
                    inspected: before.inspected.push((target.path, path)),
                    judged: before.judged.push(judged),
                    refusal: None,
                },
            }
        }
    }
}

/// One request through the rules that look at it alone: the first three of [`screening`],
/// then that the module planned anything at all, then every target through the guards and
/// the disk.
pub open spec fn planning<M: Module>(
    request: Request,
    all: Seq<(&M, &Item)>,
    limits: LimitsSpec,
    looks: Seq<EntryLookSpec>,
    mode: Mode,
) -> PlannedSpec {
    let base = named(request, all);
    let steps = steps_for(request, all, mode);
    let targets = targets_of(steps);
    match screening(request, all) {
        Err(reason) => PlannedSpec { status: EntryStatus::Blocked(reason), ..base },
        Ok(_) => if steps.len() == 0 {
            PlannedSpec { status: EntryStatus::Blocked(BlockReason::Malformed), ..base }
        } else {
            let seen = looked_at(targets, limits, looks, targets.len());
            PlannedSpec {
                kind: kind_at(targets, base.path),
                steps,
                inspected: seen.inspected,
                judged: seen.judged,
                status: match seen.refusal {
                    Some(reason) => EntryStatus::Blocked(reason),
                    None => EntryStatus::Ready,
                },
                ..base
            }
        },
    }
}

/// The steps a request comes to: what its targets are looked up for before [`preview`] and
/// [`super::execute`] are asked.
pub fn plan_steps<M: Module>(request: &Request, held: &Held<M>, mode: Mode) -> (steps: Vec<Step>)
    ensures
        step_views(steps@) == steps_for(*request, held.all(), mode),
{
    match screen(request, held) {
        Ok(screened) => screened.module.plan(
            screened.item,
            screened.action,
            &request.options,
            mode,
        ),
        Err(_) => {
            let none: Vec<Step> = Vec::new();
            assert(step_views(none@) =~= Seq::empty());
            none
        },
    }
}

/// What a request is called.
fn name_request<M: Module>(request: &Request, held: &Held<M>) -> (planned: Planned)
    ensures
        planned@ == named(*request, held.all()),
{
    let mut planned = Planned {
        item_id: request.item.clone(),
        module: String::new(),
        title: request.item.clone(),
        action: request.action.clone(),
        path: None,
        kind: None,
        steps: Vec::new(),
        inspected: Vec::new(),
        judged: Vec::new(),
        size: 0,
        status: EntryStatus::Ready,
    };
    if let Some((_, item)) = held.get(&request.item) {
        planned.module = item.module.clone();
        planned.title = item.title.clone();
        planned.path = copy_opt(&item.path);
        if let Some(action) = item.action(&request.action) {
            planned.action = action.label.clone();
            planned.size = action.estimated_free;
        }
    }
    assert(planned@ =~= named(*request, held.all()));
    planned
}

/// The kind of the first target at a path.
fn find_kind(targets: &Vec<(&Target, bool)>, wanted: &Option<String>) -> (kind: Option<NodeKind>)
    ensures
        kind == kind_at(target_views(targets@), opt_text(*wanted)),
{
    let ghost all = target_views(targets@);
    let path: &String = match wanted {
        Some(path) => path,
        None => {
            return None;
        },
    };
    let mut i: usize = 0;
    assert(all.take(0) =~= Seq::empty());
    while i < targets.len()
        invariant
            i <= targets.len(),
            all == target_views(targets@),
            opt_text(*wanted) == Some(path@),
            kind_at(all.take(i as int), Some(path@)) is None,
        decreases targets.len() - i,
    {
        assert(all.take(i + 1).drop_last() =~= all.take(i as int));
        assert(all.take(i + 1).last() == (targets@[i as int].0@, targets@[i as int].1));
        if same_paths(&targets[i].0.path, path) {
            proof {
                kind_prefix(all, path@, i + 1);
            }
            return Some(targets[i].0.kind);
        }
        i += 1;
    }
    assert(all.take(all.len() as int) =~= all);
    None
}

proof fn kind_prefix(targets: Seq<(TargetSpec, bool)>, path: Seq<char>, k: int)
    requires
        0 <= k <= targets.len(),
        kind_at(targets.take(k), Some(path)) is Some,
    ensures
        kind_at(targets, Some(path)) == kind_at(targets.take(k), Some(path)),
    decreases targets.len(),
{
    if k == targets.len() {
        assert(targets.take(k) =~= targets);
    } else {
        assert(targets.drop_last().take(k) =~= targets.take(k));
        kind_prefix(targets.drop_last(), path, k);
    }
}

proof fn refusal_sticks(
    targets: Seq<(TargetSpec, bool)>,
    limits: LimitsSpec,
    looks: Seq<EntryLookSpec>,
    k: nat,
    n: nat,
)
    requires
        k <= n,
        looked_at(targets, limits, looks, k).refusal is Some,
    ensures
        looked_at(targets, limits, looks, n) == looked_at(targets, limits, looks, k),
    decreases n,
{
    if k < n {
        refusal_sticks(targets, limits, looks, k, (n - 1) as nat);
    }
}

/// One request through the rules that look at it alone.
pub fn plan_one<M: Module>(
    request: &Request,
    held: &Held<M>,
    limits: &Limits,
    looks: &Vec<EntryLook>,
    mode: Mode,
) -> (planned: Planned)
    requires
        looks@.len() == targets_of(steps_for(*request, held.all(), mode)).len(),
    ensures
        planned@ == planning(*request, held.all(), limits@, look_views(looks@), mode),
{
    let mut planned: Planned = name_request(request, held);
    let ghost base = planned@;
    if let Err(reason) = screen(request, held) {
        planned.status = EntryStatus::Blocked(reason);
        return planned;
    }
    // 4. The module plans. An empty plan would be reported as done having done nothing.

    let steps: Vec<Step> = plan_steps(request, held, mode);
    assert(step_views(steps@).len() == steps@.len());
    if steps.len() == 0 {
        planned.status = EntryStatus::Blocked(BlockReason::Malformed);
        return planned;
    }
    let list: Vec<(&Target, bool)> = targets(&steps);
    let ghost all = targets_of(step_views(steps@));
    let ghost seen = look_views(looks@);
    assert(target_views(list@).len() == list@.len());
    planned.kind = find_kind(&list, &planned.path);
    // 5. Every target through the guards and the disk. The first refusal decides.
    let mut inspected: Vec<(String, String)> = Vec::new();
    let mut judged: Vec<String> = Vec::new();
    let mut refusal: Option<BlockReason> = None;
    let mut i: usize = 0;
    assert(pairs(inspected@) =~= Seq::empty());
    assert(texts(judged@) =~= Seq::empty());
    while i < list.len() && refusal.is_none()
        invariant
            i <= list.len(),
            list@.len() == looks@.len(),
            all == target_views(list@),
            seen == look_views(looks@),
            looked_at(all, limits@, seen, i as nat) == (LookedAt {
                inspected: pairs(inspected@),
                judged: texts(judged@),
                refusal,
            }),
        decreases list.len() - i,
    {
        assert(all[i as int] == (list@[i as int].0@, list@[i as int].1));
        assert(seen[i as int] == looks@[i as int]@);
        let ghost pairs_before = inspected@;
        let ghost judged_before = judged@;
        match check_target(list[i].0, list[i].1, limits, &looks[i]) {
            Ok(found) => {
                inspected.push((list[i].0.path.clone(), found.path));
                judged.push(found.judged);
                assert(pairs(inspected@) =~= pairs(
                    pairs_before,
                ).push((list@[i as int].0.path@, found.path@)));
                assert(texts(judged@) =~= texts(judged_before).push(found.judged@));
            },
            Err(reason) => {
                refusal = Some(reason);
            },
        }
        i += 1;
    }
    proof {
        if refusal is Some {
            refusal_sticks(all, limits@, seen, i as nat, all.len());
        }
    }
    planned.steps = steps;
    planned.inspected = inspected;
    planned.judged = judged;
    if let Some(reason) = refusal {
        planned.status = EntryStatus::Blocked(reason);
    }
    assert(planned@ =~= planning(*request, held.all(), limits@, look_views(looks@), mode));
    planned
}

/// Whether one of `inner` lies within one of `outer`: strictly, or in the same place where
/// the outer one came `earlier`.
pub open spec fn reaches_into(inner: Seq<Seq<char>>, outer: Seq<Seq<char>>, earlier: bool) -> bool {
    exists|t: int, o: int|
        0 <= t < inner.len() && 0 <= o < outer.len() && #[trigger] lies_in(
            inner[t],
            outer[o],
            earlier,
        )
}

/// Whether `target` lies within `outer`: strictly, or in the same place where the outer one
/// came `earlier`.
pub open spec fn lies_in(target: Seq<char>, outer: Seq<char>, earlier: bool) -> bool {
    within(target, outer) && (!same_path(outer, target) || earlier)
}

/// Whether ready entry `j` contains ready entry `i`.
pub open spec fn contains_entry(planned: Seq<PlannedSpec>, j: int, i: int) -> bool {
    &&& 0 <= j < planned.len()
    &&& j != i
    &&& planned[i].status == EntryStatus::Ready
    &&& planned[j].status == EntryStatus::Ready
    &&& reaches_into(planned[i].judged, planned[j].judged, j < i)
}

/// Whether another ready entry contains entry `i`.
pub open spec fn contained(planned: Seq<PlannedSpec>, i: int) -> bool {
    exists|j: int| #[trigger] contains_entry(planned, j, i)
}

/// The nesting rule over a whole batch: only the entries that are still ready take part, a
/// strict ancestor always wins, and between two spellings of one target the earlier entry
/// does. Two targets of one entry are never compared.
pub open spec fn unnested(planned: Seq<PlannedSpec>) -> Seq<PlannedSpec> {
    Seq::new(
        planned.len(),
        |i: int|
            if contained(planned, i) {
                PlannedSpec { status: EntryStatus::Blocked(BlockReason::Nested), ..planned[i] }
            } else {
                planned[i]
            },
    )
}

/// All rules over a whole batch.
pub open spec fn planning_all<M: Module>(
    requests: Seq<Request>,
    all: Seq<(&M, &Item)>,
    limits: LimitsSpec,
    looks: Seq<Vec<EntryLook>>,
    mode: Mode,
) -> Seq<PlannedSpec> {
    unnested(
        Seq::new(
            requests.len(),
            |i: int| planning(requests[i], all, limits, look_views(looks[i]@), mode),
        ),
    )
}

/// What was looked at fits the requests: one look per target of the plan of each.
pub open spec fn looks_fit<M: Module>(
    requests: Seq<Request>,
    all: Seq<(&M, &Item)>,
    looks: Seq<Vec<EntryLook>>,
    mode: Mode,
) -> bool {
    &&& looks.len() == requests.len()
    &&& forall|i: int|
        0 <= i < requests.len() ==> (#[trigger] looks[i])@.len() == targets_of(
            steps_for(requests[i], all, mode),
        ).len()
}

fn find_reach(inner: &Vec<String>, outer: &Vec<String>, earlier: bool) -> (r: bool)
    ensures
        r == reaches_into(texts(inner@), texts(outer@), earlier),
{
    let mut t: usize = 0;
    while t < inner.len()
        invariant
            t <= inner.len(),
            forall|x: int, y: int|
                0 <= x < t && 0 <= y < outer@.len() ==> !#[trigger] lies_in(
                    texts(inner@)[x],
                    texts(outer@)[y],
                    earlier,
                ),
        decreases inner.len() - t,
    {
        let mut o: usize = 0;
        while o < outer.len()
            invariant
                o <= outer.len(),
                t < inner.len(),
                forall|y: int|
                    0 <= y < o ==> !#[trigger] lies_in(
                        texts(inner@)[t as int],
                        texts(outer@)[y],
                        earlier,
                    ),
            decreases outer.len() - o,
        {
            if starts_with(&inner[t], &outer[o]) && (earlier || !same_paths(&outer[o], &inner[t])) {
                assert(lies_in(texts(inner@)[t as int], texts(outer@)[o as int], earlier));
                return true;
            }
            assert(!lies_in(texts(inner@)[t as int], texts(outer@)[o as int], earlier));
            o += 1;
        }
        t += 1;
    }
    false
}

fn find_container(planned: &Vec<Planned>, i: usize) -> (r: bool)
    requires
        i < planned.len(),
    ensures
        r == contained(planned_views(planned@), i as int),
{
    let ghost all = planned_views(planned@);
    let mut j: usize = 0;
    while j < planned.len()
        invariant
            j <= planned.len(),
            i < planned.len(),
            all == planned_views(planned@),
            forall|k: int| 0 <= k < j ==> !#[trigger] contains_entry(all, k, i as int),
        decreases planned.len() - j,
    {
        assert(all[j as int] == planned@[j as int]@);
        assert(all[i as int] == planned@[i as int]@);
        if j != i && planned[i].status == EntryStatus::Ready && planned[j].status
            == EntryStatus::Ready && find_reach(&planned[i].judged, &planned[j].judged, j < i) {
            assert(contains_entry(all, j as int, i as int));
            return true;
        }
        j += 1;
    }
    false
}

/// All rules over a whole batch.
pub fn plan_all<M: Module>(
    requests: &Vec<Request>,
    held: &Held<M>,
    limits: &Limits,
    looks: &Vec<Vec<EntryLook>>,
    mode: Mode,
) -> (planned: Vec<Planned>)
    requires
        looks_fit(requests@, held.all(), looks@, mode),
    ensures
        planned_views(planned@) == planning_all(requests@, held.all(), limits@, looks@, mode),
{
    let ghost alone = Seq::new(
        requests@.len(),
        |i: int| planning(requests@[i], held.all(), limits@, look_views(looks@[i]@), mode),
    );
    let mut planned: Vec<Planned> = Vec::new();
    let mut i: usize = 0;
    while i < requests.len()
        invariant
            i <= requests.len(),
            looks_fit(requests@, held.all(), looks@, mode),
            alone.len() == requests@.len(),
            forall|k: int|
                0 <= k < requests@.len() ==> #[trigger] alone[k] == planning(
                    requests@[k],
                    held.all(),
                    limits@,
                    look_views(looks@[k]@),
                    mode,
                ),
            planned@.len() == i,
            forall|k: int| 0 <= k < i ==> (#[trigger] planned@[k])@ == alone[k],
        decreases requests.len() - i,
    {
        assert(looks@[i as int]@.len() == targets_of(
            steps_for(requests@[i as int], held.all(), mode),
        ).len());
        planned.push(plan_one(&requests[i], held, limits, &looks[i], mode));
        i += 1;
    }
    assert(planned_views(planned@) =~= alone);
    // 6. Across the batch, only the entries that are still ready take part: an entry that
    //    will not run cannot swallow the one below it. A strict ancestor always wins, and
    //    between two spellings of one target the earlier entry does. Two targets of one
    //    entry are never compared: a module that deletes a folder and then prunes inside it
    //    has planned one thing, not two.
    let mut nested: Vec<bool> = Vec::new();
    let mut k: usize = 0;
    while k < planned.len()
        invariant
            k <= planned.len(),
            alone == planned_views(planned@),
            nested@.len() == k,
            forall|x: int| 0 <= x < k ==> #[trigger] nested@[x] == contained(alone, x),
        decreases planned.len() - k,
    {
        nested.push(find_container(&planned, k));
        k += 1;
    }
    let ghost before = planned@;
    let mut n: usize = 0;
    while n < planned.len()
        invariant
            n <= planned.len(),
            planned@.len() == before.len() == alone.len() == nested@.len(),
            forall|x: int| 0 <= x < alone.len() ==> #[trigger] nested@[x] == contained(alone, x),
            forall|x: int| 0 <= x < before.len() ==> (#[trigger] before[x])@ == alone[x],
            forall|x: int|
                n <= x < planned@.len() ==> #[trigger] planned@[x] == before[x],
            forall|x: int|
                0 <= x < n ==> (#[trigger] planned@[x])@ == unnested(alone)[x],
        decreases planned.len() - n,
    {
        assert(before[n as int]@ == alone[n as int]);
        assert(planned@[n as int] == before[n as int]);
        if nested[n] {
            planned[n].status = EntryStatus::Blocked(BlockReason::Nested);
        }
        assert(planned@[n as int]@ =~= unnested(alone)[n as int]);
        n += 1;
    }
    assert(planned_views(planned@) =~= unnested(alone));
    planned
}

/// The path that is shown for a target: the normalized one when the preview got to look at
/// it, and the module's own otherwise.
pub open spec fn shown_path(path: Seq<char>, inspected: Seq<(Seq<char>, Seq<char>)>) -> Seq<char>
    decreases inspected.len(),
{
    if inspected.len() == 0 {
        path
    } else if same_path(inspected.last().0, path) {
        inspected.last().1
    } else {
        shown_path(path, inspected.drop_last())
    }
}

/// A step as the dialog shows it.
pub open spec fn viewed(step: StepSpec, mode: Mode, inspected: Seq<(Seq<char>, Seq<char>)>) -> StepViewSpec {
    match step {
        StepSpec::Delete(target) => match mode {
            Mode::Trash => StepViewSpec::Trash(shown_path(target.path, inspected)),
            Mode::Permanent => StepViewSpec::Delete(shown_path(target.path, inspected)),
        },
        StepSpec::Run(command, effect) => match effect {
            EffectSpec::Housekeeping => StepViewSpec::Run(
                line_of(command),
                EffectView::Housekeeping,
                None,
            ),
            EffectSpec::Destroys => StepViewSpec::Run(line_of(command), EffectView::Destroys, None),
            EffectSpec::Removes(target) => StepViewSpec::Run(
                line_of(command),
                EffectView::Removes,
                Some(shown_path(target.path, inspected)),
            ),
        },
    }
}

fn find_shown(path: &String, inspected: &Vec<(String, String)>) -> (shown: String)
    ensures
        shown@ == shown_path(path@, pairs(inspected@)),
{
    let ghost all = pairs(inspected@);
    let mut i: usize = inspected.len();
    assert(all.take(i as int) =~= all);
    while i > 0
        invariant
            i <= inspected.len(),
            all == pairs(inspected@),
            shown_path(path@, all) == shown_path(path@, all.take(i as int)),
        decreases i,
    {
        i -= 1;
        assert(all.take(i + 1).drop_last() =~= all.take(i as int));
        assert(all.take(i + 1).last() == (inspected@[i as int].0@, inspected@[i as int].1@));
        if same_paths(&inspected[i].0, path) {
            return inspected[i].1.clone();
        }
    }
    path.clone()
}

/// A step as the dialog shows it: the normalized path when the preview got to look at it,
/// and the module's own otherwise.
pub fn view(step: &Step, mode: Mode, inspected: &Vec<(String, String)>) -> (shown: StepView)
    ensures
        shown@ == viewed(step@, mode, pairs(inspected@)),
{
    match step {
        Step::Delete(target) => match mode {
            Mode::Trash => StepView::Trash { path: find_shown(&target.path, inspected) },
            Mode::Permanent => StepView::Delete { path: find_shown(&target.path, inspected) },
        },
        Step::Run { command, effect } => match effect {
            Effect::Housekeeping => StepView::Run {
                command: command.line(),
                effect: EffectView::Housekeeping,
                path: None,
            },
            Effect::Destroys => StepView::Run {
                command: command.line(),
                effect: EffectView::Destroys,
                path: None,
            },
            Effect::Removes(target) => StepView::Run {
                command: command.line(),
                effect: EffectView::Removes,
                path: Some(find_shown(&target.path, inspected)),
            },
        },
    }
}

/// Whether `entry` is how a planned request is shown.
pub open spec fn shows(entry: CleanupEntry, planned: PlannedSpec, mode: Mode) -> bool {
    &&& entry.item@ == planned.item_id
    &&& entry.module@ == planned.module
    &&& entry.title@ == planned.title
    &&& entry.action@ == planned.action
    &&& entry.steps@.len() == planned.steps.len()
    &&& forall|k: int|
        0 <= k < planned.steps.len() ==> (#[trigger] entry.steps@[k])@ == viewed(
            planned.steps[k],
            mode,
            planned.inspected,
        )
    &&& entry.size == planned.size
    &&& entry.status == planned.status
    &&& entry.reversible == is_reversible(planned.steps, mode)
}

/// The sizes of the ready ones among the first `k` entries, held at the largest number.
pub open spec fn promised(planned: Seq<PlannedSpec>, k: nat) -> u64
    decreases k,
{
    if k == 0 {
        0
    } else {
        let before = promised(planned, (k - 1) as nat);
        if planned[k - 1].status == EntryStatus::Ready {
            capped_sum(before, planned[k - 1].size)
        } else {
            before
        }
    }
}

fn show(planned: &Planned, mode: Mode) -> (entry: CleanupEntry)
    ensures
        shows(entry, planned@, mode),
{
    let mut steps: Vec<StepView> = Vec::new();
    let mut i: usize = 0;
    while i < planned.steps.len()
        invariant
            i <= planned.steps.len(),
            steps@.len() == i,
            forall|k: int|
                0 <= k < i ==> (#[trigger] steps@[k])@ == viewed(
                    planned@.steps[k],
                    mode,
                    planned@.inspected,
                ),
        decreases planned.steps.len() - i,
    {
        steps.push(view(&planned.steps[i], mode, &planned.inspected));
        i += 1;
    }
    CleanupEntry {
        item: planned.item_id.clone(),
        module: planned.module.clone(),
        title: planned.title.clone(),
        action: planned.action.clone(),
        steps,
        size: planned.size,
        status: planned.status,
        reversible: reversible(&planned.steps, mode),
    }
}

/// Whether `shown` is what the dialog shows of a planned batch.
pub open spec fn previews(shown: CleanupPreview, planned: Seq<PlannedSpec>, mode: Mode) -> bool {
    &&& shown.mode == mode
    &&& shown.entries@.len() == planned.len()
    &&& forall|i: int|
        0 <= i < planned.len() ==> shows(#[trigger] shown.entries@[i], planned[i], mode)
    &&& shown.total_bytes == promised(planned, planned.len())
}

/// Checks a batch without touching anything. Every request keeps its place in the list.
pub fn preview<M: Module>(
    requests: &Vec<Request>,
    held: &Held<M>,
    limits: &Limits,
    looks: &Vec<Vec<EntryLook>>,
    mode: Mode,
) -> (shown: CleanupPreview)
    requires
        looks_fit(requests@, held.all(), looks@, mode),
    ensures
        previews(shown, planning_all(requests@, held.all(), limits@, looks@, mode), mode),
{
    let planned: Vec<Planned> = plan_all(requests, held, limits, looks, mode);
    let ghost all = planned_views(planned@);
    let mut entries: Vec<CleanupEntry> = Vec::new();
    let mut total_bytes: u64 = 0;
    let mut i: usize = 0;
    assert(all.len() == planned@.len());
    while i < planned.len()
        invariant
            i <= planned.len(),
            all == planned_views(planned@),
            entries@.len() == i,
            forall|k: int| 0 <= k < i ==> shows(#[trigger] entries@[k], all[k], mode),
            total_bytes == promised(all, i as nat),
        decreases planned.len() - i,
    {
        assert(all[i as int] == planned@[i as int]@);
        entries.push(show(&planned[i], mode));
        if planned[i].status == EntryStatus::Ready {
            total_bytes = total_bytes.saturating_add(planned[i].size);
        }
        i += 1;
    }
    CleanupPreview { entries, total_bytes, mode }
}

/// No ready entry of a batch contains another: of two that are still ready, no target of one
/// lies within a target of the other.
pub proof fn ready_entries_do_not_nest(planned: Seq<PlannedSpec>, i: int, j: int, t: int, o: int)
    requires
        0 <= i < planned.len(),
        0 <= j < planned.len(),
        i != j,
        unnested(planned)[i].status == EntryStatus::Ready,
        unnested(planned)[j].status == EntryStatus::Ready,
        0 <= t < planned[i].judged.len(),
        0 <= o < planned[j].judged.len(),
    ensures
        !within(planned[i].judged[t], planned[j].judged[o]),
{
    let inner = planned[i].judged[t];
    let outer = planned[j].judged[o];
    if within(inner, outer) {
        if j < i || !same_path(outer, inner) {
            assert(lies_in(inner, outer, j < i));
            assert(contains_entry(planned, j, i));
        } else {
            assert(within(outer, inner)) by {
                assert(crate::path::parts(outer) == crate::path::parts(inner));
            }
            assert(lies_in(outer, inner, i < j));
            assert(contains_entry(planned, i, j));
        }
    }
}

/// A Keep verdict is lifted by a `force` option of the action that is on, and by nothing
/// else.
pub proof fn a_keep_is_lifted_by_force_alone<M: Module>(request: Request, all: Seq<(&M, &Item)>)
    requires
        screening(request, all) is Ok,
        screening(request, all)->Ok_0.1.verdict.level == Level::Keep,
    ensures
        forces(screening(request, all)->Ok_0.2, texts(request.options@)),
{
}

/// A request the rules refuse comes back in its place with the reason of the first rule that
/// applies, and nothing is planned for it.
pub proof fn a_refused_request_plans_nothing<M: Module>(
    request: Request,
    all: Seq<(&M, &Item)>,
    limits: LimitsSpec,
    looks: Seq<EntryLookSpec>,
    mode: Mode,
)
    requires
        screening(request, all) is Err,
    ensures
        planning(request, all, limits, looks, mode).status == EntryStatus::Blocked(
            screening(request, all)->Err_0,
        ),
        planning(request, all, limits, looks, mode).steps.len() == 0,
        planning(request, all, limits, looks, mode).item_id == request.item@,
{
}

} // verus!
