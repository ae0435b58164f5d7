//! What a cleanup batch promises of every request.

use super::engine::{asks_for_more, contained, contains_entry, forces, held_in, is_reversible, lies_in, looked_at};
use super::engine::{planning, promised, reaches_into, screening, shown_path, steps_for, target_checks};
use super::engine::{targets_of, undoable, unnested, viewed, PlannedSpec};
use super::model::{CleanupEntryOutcome, CleanupOutcome, Progress, Request, StepViewSpec};
use super::run::{at_step, becomes, ran_entry, ran_so_far, results, runs_through, step_end};
use super::run::{word_lists, RanSpec, StepRun};
use crate::action::engine::{EntryLookSpec, SystemErrorKind};
use crate::action::guards::LimitsSpec;
use crate::action::model::{freed_bytes, BlockReason, EntryResultSpec, EntryStatus, Mode, Timestamp};
use crate::module::item::{action_at, action_of, option_at, option_of};
use crate::module::step::{EffectSpec, StepSpec, TargetSpec};
use crate::module::{ActionOption, ActionSpec, Item, Level, Module};
use crate::order::total;
use crate::path::{same_path, within};
use crate::text::{decimal_text, opt_text, texts};
use vstd::prelude::*;

verus! {

/// Whether the item under this id is number `h`: the last of those that have the id.
pub open spec fn is_held<M: Module>(all: Seq<(&M, &Item)>, id: Seq<char>, h: int) -> bool {
    &&& 0 <= h < all.len()
    &&& all[h].1.id@ == id
    &&& forall|j: int| h < j < all.len() ==> (#[trigger] all[j]).1.id@ != id
}

/// Whether the action under this id is number `a`: the first of those that have the id.
pub open spec fn is_offered(item: Item, id: Seq<char>, a: int) -> bool {
    &&& 0 <= a < item.actions@.len()
    &&& item.actions@[a].id@ == id
    &&& forall|j: int| 0 <= j < a ==> (#[trigger] item.actions@[j]).id@ != id
}

/// Whether the option under this id is number `o`: the first of those that have the id.
pub open spec fn is_option(action: ActionSpec, id: Seq<char>, o: int) -> bool {
    &&& 0 <= o < action.options@.len()
    &&& action.options@[o].id@ == id
    &&& forall|j: int| 0 <= j < o ==> (#[trigger] action.options@[j]).id@ != id
}

proof fn held_is<M: Module>(all: Seq<(&M, &Item)>, id: Seq<char>, h: int)
    requires
        is_held(all, id, h),
    ensures
        held_in(all, id) == Some(all[h]),
    decreases all.len(),
{
    if h < all.len() - 1 {
        let fewer = all.drop_last();
        assert(all[all.len() - 1].1.id@ != id);
        assert forall|j: int| h < j < fewer.len() implies (#[trigger] fewer[j]).1.id@ != id by {
            assert(all[j].1.id@ != id);
        }
        held_is(fewer, id, h);
    }
}

proof fn not_held<M: Module>(all: Seq<(&M, &Item)>, id: Seq<char>)
    requires
        forall|j: int| 0 <= j < all.len() ==> (#[trigger] all[j]).1.id@ != id,
    ensures
        held_in(all, id) is None,
    decreases all.len(),
{
    if all.len() > 0 {
        let fewer = all.drop_last();
        assert(all[all.len() - 1].1.id@ != id);
        assert forall|j: int| 0 <= j < fewer.len() implies (#[trigger] fewer[j]).1.id@ != id by {
            assert(all[j].1.id@ != id);
        }
        not_held(fewer, id);
    }
}

proof fn offered_is(actions: Seq<ActionSpec>, id: Seq<char>, a: int)
    requires
        0 <= a < actions.len(),
        actions[a].id@ == id,
        forall|j: int| 0 <= j < a ==> (#[trigger] actions[j]).id@ != id,
    ensures
        action_at(actions, id) == Some(a),
    decreases actions.len(),
{
    let fewer = actions.drop_last();
    if a < actions.len() - 1 {
        assert forall|j: int| 0 <= j < a implies (#[trigger] fewer[j]).id@ != id by {
            assert(actions[j].id@ != id);
        }
        offered_is(fewer, id, a);
    } else {
        assert forall|j: int| 0 <= j < fewer.len() implies (#[trigger] fewer[j]).id@ != id by {
            assert(actions[j].id@ != id);
        }
        not_offered(fewer, id);
    }
}

proof fn not_offered(actions: Seq<ActionSpec>, id: Seq<char>)
    requires
        forall|j: int| 0 <= j < actions.len() ==> (#[trigger] actions[j]).id@ != id,
    ensures
        action_at(actions, id) is None,
    decreases actions.len(),
{
    if actions.len() > 0 {
        let fewer = actions.drop_last();
        assert(actions[actions.len() - 1].id@ != id);
        assert forall|j: int| 0 <= j < fewer.len() implies (#[trigger] fewer[j]).id@ != id by {
            assert(actions[j].id@ != id);
        }
        not_offered(fewer, id);
    }
}

proof fn option_is(options: Seq<ActionOption>, id: Seq<char>, o: int)
    requires
        0 <= o < options.len(),
        options[o].id@ == id,
        forall|j: int| 0 <= j < o ==> (#[trigger] options[j]).id@ != id,
    ensures
        option_at(options, id) == Some(o),
    decreases options.len(),
{
    let fewer = options.drop_last();
    if o < options.len() - 1 {
        assert forall|j: int| 0 <= j < o implies (#[trigger] fewer[j]).id@ != id by {
            assert(options[j].id@ != id);
        }
        option_is(fewer, id, o);
    } else {
        assert forall|j: int| 0 <= j < fewer.len() implies (#[trigger] fewer[j]).id@ != id by {
            assert(options[j].id@ != id);
        }
        no_option(fewer, id);
    }
}

proof fn no_option(options: Seq<ActionOption>, id: Seq<char>)
    requires
        forall|j: int| 0 <= j < options.len() ==> (#[trigger] options[j]).id@ != id,
    ensures
        option_at(options, id) is None,
    decreases options.len(),
{
    if options.len() > 0 {
        let fewer = options.drop_last();
        assert(options[options.len() - 1].id@ != id);
        assert forall|j: int| 0 <= j < fewer.len() implies (#[trigger] fewer[j]).id@ != id by {
            assert(options[j].id@ != id);
        }
        no_option(fewer, id);
    }
}

/// An item that no discovery found any more is missing.
pub proof fn what_is_not_held_is_missing<M: Module>(request: Request, all: Seq<(&M, &Item)>)
    requires
        forall|j: int| 0 <= j < all.len() ==> (#[trigger] all[j]).1.id@ != request.item@,
    ensures
        screening(request, all) == Err::<(&M, &Item, ActionSpec), BlockReason>(BlockReason::Missing),
{
    not_held(all, request.item@);
}

/// An item that does not offer the action any more is not what the screen showed.
pub proof fn an_action_that_is_gone_is_refused<M: Module>(
    request: Request,
    all: Seq<(&M, &Item)>,
    h: int,
)
    requires
        is_held(all, request.item@, h),
        forall|j: int|
            0 <= j < all[h].1.actions@.len() ==> (#[trigger] all[h].1.actions@[j]).id@
                != request.action@,
    ensures
        screening(request, all) == Err::<(&M, &Item, ActionSpec), BlockReason>(
            BlockReason::KindChanged,
        ),
{
    held_is(all, request.item@, h);
    not_offered(all[h].1.actions@, request.action@);
}

/// An action that has not every option that was asked for is not what the screen showed, whatever
/// the other options are.
pub proof fn an_option_that_is_gone_is_refused<M: Module>(
    request: Request,
    all: Seq<(&M, &Item)>,
    h: int,
    a: int,
    k: int,
)
    requires
        is_held(all, request.item@, h),
        is_offered(*all[h].1, request.action@, a),
        0 <= k < request.options@.len(),
        forall|j: int|
            0 <= j < all[h].1.actions@[a].options@.len() ==> (
            #[trigger] all[h].1.actions@[a].options@[j]).id@ != request.options@[k]@,
    ensures
        screening(request, all) == Err::<(&M, &Item, ActionSpec), BlockReason>(
            BlockReason::KindChanged,
        ),
{
    held_is(all, request.item@, h);
    offered_is(all[h].1.actions@, request.action@, a);
    no_option(all[h].1.actions@[a].options@, request.options@[k]@);
    assert(option_of(all[h].1.actions@[a], texts(request.options@)[k]) is None);
}

/// Where the item is held and offers the action and every option that was asked for, its level
/// and the force options decide. An item that is not to be kept passes. One that is to be kept
/// passes when one of the options asked for, at whatever place, has `force` set, and is refused
/// as kept when none has.
pub proof fn force_lifts_a_keep_wherever_it_stands<M: Module>(
    request: Request,
    all: Seq<(&M, &Item)>,
    h: int,
    a: int,
    picks: Seq<int>,
)
    requires
        is_held(all, request.item@, h),
        is_offered(*all[h].1, request.action@, a),
        picks.len() == request.options@.len(),
        forall|k: int|
            0 <= k < picks.len() ==> is_option(
                all[h].1.actions@[a],
                request.options@[k]@,
                #[trigger] picks[k],
            ),
    ensures
        ({
            let item = all[h].1;
            let action = item.actions@[a];
            let passes = Ok::<(&M, &Item, ActionSpec), BlockReason>((all[h].0, item, action));
            let forced = exists|k: int|
                0 <= k < picks.len() && action.options@[#[trigger] picks[k]].force;
            &&& item.verdict.level == Level::Safe ==> screening(request, all) == passes
            &&& item.verdict.level == Level::Review ==> screening(request, all) == passes
            &&& item.verdict.level == Level::Keep && forced ==> screening(request, all) == passes
            &&& item.verdict.level == Level::Keep && !forced ==> screening(request, all) == Err::<
                (&M, &Item, ActionSpec),
                BlockReason,
            >(BlockReason::Kept)
        }),
{
    let item = all[h].1;
    let action = item.actions@[a];
    let options = texts(request.options@);
    held_is(all, request.item@, h);
    offered_is(item.actions@, request.action@, a);
    assert forall|k: int| 0 <= k < options.len() implies option_of(action, #[trigger] options[k])
        == Some(action.options@[picks[k]]) by {
        assert(is_option(action, request.options@[k]@, picks[k]));
        option_is(action.options@, options[k], picks[k]);
    }
    let forced = exists|k: int| 0 <= k < picks.len() && action.options@[#[trigger] picks[k]].force;
    assert(forces(action, options) == forced) by {
        if forced {
            let k = choose|k: int| 0 <= k < picks.len() && action.options@[#[trigger] picks[k]].force;
            assert(option_of(action, options[k])->0.force);
        }
        if forces(action, options) {
            let k = choose|k: int|
                0 <= k < options.len() && option_of(action, #[trigger] options[k]) is Some
                    && option_of(action, options[k])->0.force;
            assert(action.options@[picks[k]].force);
        }
    }
    assert(!asks_for_more(action, options));
}

/// The order of the options, and how often one is asked for, do not matter: two requests for one
/// action of one item that ask for the same options pass or are refused alike.
pub proof fn the_order_of_options_does_not_matter<M: Module>(
    one: Request,
    other: Request,
    all: Seq<(&M, &Item)>,
)
    requires
        one.item@ == other.item@,
        one.action@ == other.action@,
        forall|id: Seq<char>|
            texts(one.options@).contains(id) <==> #[trigger] texts(other.options@).contains(id),
    ensures
        screening(one, all) == screening(other, all),
{
    let a = texts(one.options@);
    let b = texts(other.options@);
    match held_in(all, one.item@) {
        Some((_, item)) => match action_of(*item, one.action@) {
            Some(action) => {
                asking_alike(action, a, b);
                asking_alike(action, b, a);
            },
            None => {},
        },
        None => {},
    }
}

proof fn asking_alike(action: ActionSpec, a: Seq<Seq<char>>, b: Seq<Seq<char>>)
    requires
        forall|id: Seq<char>| a.contains(id) <==> #[trigger] b.contains(id),
    ensures
        asks_for_more(action, a) ==> asks_for_more(action, b),
        forces(action, a) ==> forces(action, b),
{
    if asks_for_more(action, a) {
        let k = choose|k: int| 0 <= k < a.len() && option_of(action, #[trigger] a[k]) is None;
        assert(b.contains(a[k]));
        let m = choose|m: int| 0 <= m < b.len() && b[m] == a[k];
        assert(option_of(action, b[m]) is None);
    }
    if forces(action, a) {
        let k = choose|k: int|
            0 <= k < a.len() && option_of(action, #[trigger] a[k]) is Some && option_of(
                action,
                a[k],
            )->0.force;
        assert(b.contains(a[k]));
        let m = choose|m: int| 0 <= m < b.len() && b[m] == a[k];
        assert(option_of(action, b[m])->0.force);
    }
}

/// Further options that the action has refuse nothing that passed.
pub proof fn a_further_option_refuses_nothing<M: Module>(
    one: Request,
    more: Request,
    all: Seq<(&M, &Item)>,
)
    requires
        one.item@ == more.item@,
        one.action@ == more.action@,
        screening(one, all) is Ok,
        texts(one.options@).is_prefix_of(texts(more.options@)),
        forall|k: int|
            one.options@.len() <= k < more.options@.len() ==> exists|o: int|
                is_option(
                    screening(one, all)->Ok_0.2,
                    (#[trigger] more.options@[k])@,
                    o,
                ),
    ensures
        screening(more, all) == screening(one, all),
{
    let action = screening(one, all)->Ok_0.2;
    let a = texts(one.options@);
    let b = texts(more.options@);
    assert forall|k: int| 0 <= k < b.len() implies option_of(action, #[trigger] b[k]) is Some by {
        if k < a.len() {
            assert(b[k] == a[k]);
            assert(option_of(action, a[k]) is Some);
        } else {
            let o = choose|o: int| is_option(action, more.options@[k]@, o);
            option_is(action.options@, b[k], o);
        }
    }
    assert forall|k: int| 0 <= k < a.len() implies #[trigger] a[k] == b[k] by {}
}

/// The Trash undoes a plan when the batch runs in Trash mode and nothing in the plan is beyond
/// it: a deletion and housekeeping, wherever they stand, leave a plan as it was, and one command
/// that destroys or removes something takes the promise away.
pub proof fn what_the_trash_can_undo(steps: Seq<StepSpec>, at: int, step: StepSpec)
    requires
        0 <= at <= steps.len(),
    ensures
        !is_reversible(steps, Mode::Permanent),
        is_reversible(Seq::empty(), Mode::Trash),
        step is Delete ==> is_reversible(steps.insert(at, step), Mode::Trash) == is_reversible(
            steps,
            Mode::Trash,
        ),
        step matches StepSpec::Run(_, effect) ==> {
            &&& effect is Housekeeping ==> is_reversible(steps.insert(at, step), Mode::Trash)
                == is_reversible(steps, Mode::Trash)
            &&& effect is Destroys ==> !is_reversible(steps.insert(at, step), Mode::Trash)
            &&& effect is Removes ==> !is_reversible(steps.insert(at, step), Mode::Trash)
        },
{
    let more = steps.insert(at, step);
    assert(more[at] == step);
    assert forall|i: int| 0 <= i < steps.len() implies #[trigger] steps[i] == more[if i < at {
        i
    } else {
        i + 1
    }] by {}
    assert forall|i: int| 0 <= i < more.len() && i != at implies #[trigger] more[i] == steps[if i
        < at {
        i
    } else {
        i - 1
    }] by {}
}

/// What is looked at before a batch runs is what its steps delete: the target of every deletion,
/// and that of every command that removes something, in their order. A command that destroys
/// something else and housekeeping have no target.
pub proof fn every_deletion_is_looked_at(a: Seq<StepSpec>, b: Seq<StepSpec>, step: StepSpec)
    ensures
        targets_of(a + b) == targets_of(a) + targets_of(b),
        step matches StepSpec::Delete(target) ==> targets_of(seq![step]) == seq![(target, false)],
        step matches StepSpec::Run(_, effect) ==> {
            &&& effect matches EffectSpec::Removes(target) ==> targets_of(seq![step]) == seq![
                (target, true),
            ]
            &&& !(effect is Removes) ==> targets_of(seq![step]) == Seq::<(TargetSpec, bool)>::empty()
        },
    decreases b.len(),
{
    if b.len() == 0 {
        assert(a + b =~= a);
        assert(targets_of(a) + targets_of(b) =~= targets_of(a));
    } else {
        every_deletion_is_looked_at(a, b.drop_last(), step);
        assert((a + b).drop_last() =~= a + b.drop_last());
        assert((a + b).last() == b.last());
        assert(targets_of(a + b) =~= targets_of(a) + targets_of(b));
    }
    let one = seq![step];
    assert(one.drop_last() =~= Seq::empty());
    assert(one.last() == step);
    reveal_with_fuel(targets_of, 2);
}

/// A target passes when the guards allow it, it is there, it still is of the kind the module saw
/// and, where a command removes it, it is spelled the way the guards resolve it. Nothing else
/// passes, and a target of another kind is never touched.
pub proof fn a_target_passes_as_it_was_seen(
    target: TargetSpec,
    removes: bool,
    limits: LimitsSpec,
    look: EntryLookSpec,
)
    ensures
        target_checks(target, removes, limits, look) is Ok <==> {
            &&& limits.checks(target.path, look.look) is Ok
            &&& look.stat is Ok
            &&& look.stat->Ok_0 == target.kind
            &&& removes ==> same_path(limits.checks(target.path, look.look)->Ok_0.0, target.path)
        },
        target_checks(target, removes, limits, look) is Ok ==> target_checks(
            target,
            removes,
            limits,
            look,
        ) == limits.checks(target.path, look.look),
        limits.checks(target.path, look.look) is Err ==> target_checks(
            target,
            removes,
            limits,
            look,
        ) == limits.checks(target.path, look.look),
        limits.checks(target.path, look.look) is Ok && look.stat is Ok && look.stat->Ok_0
            != target.kind ==> target_checks(target, removes, limits, look) == Err::<
            (Seq<char>, Seq<char>),
            BlockReason,
        >(BlockReason::KindChanged),
{
}

/// A plan is ready when every one of its targets passes. Otherwise the first that does not pass
/// decides, and those after it are not looked at.
pub proof fn the_first_refusal_decides(
    targets: Seq<(TargetSpec, bool)>,
    limits: LimitsSpec,
    looks: Seq<EntryLookSpec>,
    k: nat,
)
    requires
        k <= targets.len(),
    ensures
        (forall|i: int|
            0 <= i < k ==> target_checks(
                (#[trigger] targets[i]).0,
                targets[i].1,
                limits,
                looks[i],
            ) is Ok) ==> {
            let seen = looked_at(targets, limits, looks, k);
            &&& seen.refusal is None
            &&& seen.judged.len() == k
            &&& seen.inspected.len() == k
            &&& forall|i: int|
                0 <= i < k ==> {
                    let passed = target_checks(
                        targets[i].0,
                        targets[i].1,
                        limits,
                        looks[i],
                    )->Ok_0;
                    &&& #[trigger] seen.judged[i] == passed.1
                    &&& seen.inspected[i] == (targets[i].0.path, passed.0)
                }
        },
        forall|i: int|
            0 <= i < k && target_checks((#[trigger] targets[i]).0, targets[i].1, limits, looks[i]) is Err
                && (forall|j: int|
                0 <= j < i ==> target_checks(
                    (#[trigger] targets[j]).0,
                    targets[j].1,
                    limits,
                    looks[j],
                ) is Ok) ==> {
                let seen = looked_at(targets, limits, looks, k);
                &&& seen.refusal == Some(
                    target_checks(targets[i].0, targets[i].1, limits, looks[i])->Err_0,
                )
                &&& seen.judged.len() == i
            },
    decreases k,
{
    if k > 0 {
        the_first_refusal_decides(targets, limits, looks, (k - 1) as nat);
    }
}

/// A request is ready when it passes the screening, comes to a step at all and every target of
/// its steps passes. A plan of no steps is a mistake of the module, and refused as malformed.
pub proof fn a_request_is_ready_when_all_of_it_passes<M: Module>(
    request: Request,
    all: Seq<(&M, &Item)>,
    limits: LimitsSpec,
    looks: Seq<EntryLookSpec>,
    mode: Mode,
)
    ensures
        ({
            let targets = targets_of(steps_for(request, all, mode));
            let entry = planning(request, all, limits, looks, mode);
            &&& entry.status == EntryStatus::Ready <==> {
                &&& screening(request, all) is Ok
                &&& steps_for(request, all, mode).len() > 0
                &&& forall|i: int|
                    0 <= i < targets.len() ==> target_checks(
                        (#[trigger] targets[i]).0,
                        targets[i].1,
                        limits,
                        looks[i],
                    ) is Ok
            }
            &&& screening(request, all) is Ok && steps_for(request, all, mode).len() == 0
                ==> entry.status == EntryStatus::Blocked(BlockReason::Malformed)
            &&& entry.item_id == request.item@
            &&& screening(request, all) matches Ok((module, item, action)) ==> {
                &&& entry.size == action.estimated_free
                &&& entry.title == item.title@
                &&& entry.module == item.module@
                &&& entry.action == action.label@
            }
        }),
{
    let targets = targets_of(steps_for(request, all, mode));
    the_first_refusal_decides(targets, limits, looks, targets.len());
    if exists|i: int|
        0 <= i < targets.len() && target_checks(
            (#[trigger] targets[i]).0,
            targets[i].1,
            limits,
            looks[i],
        ) is Err {
        let i = choose|i: int|
            0 <= i < targets.len() && target_checks(
                (#[trigger] targets[i]).0,
                targets[i].1,
                limits,
                looks[i],
            ) is Err;
        let first = first_refused(targets, limits, looks, i);
        assert(target_checks(targets[first].0, targets[first].1, limits, looks[first]) is Err);
    }
}

proof fn first_refused(
    targets: Seq<(TargetSpec, bool)>,
    limits: LimitsSpec,
    looks: Seq<EntryLookSpec>,
    i: int,
) -> (first: int)
    requires
        0 <= i < targets.len(),
        target_checks(targets[i].0, targets[i].1, limits, looks[i]) is Err,
    ensures
        0 <= first <= i,
        target_checks(targets[first].0, targets[first].1, limits, looks[first]) is Err,
        forall|j: int|
            0 <= j < first ==> target_checks(
                (#[trigger] targets[j]).0,
                targets[j].1,
                limits,
                looks[j],
            ) is Ok,
    decreases i,
{
    if exists|j: int|
        0 <= j < i && target_checks((#[trigger] targets[j]).0, targets[j].1, limits, looks[j]) is Err {
        let j = choose|j: int|
            0 <= j < i && target_checks((#[trigger] targets[j]).0, targets[j].1, limits, looks[j]) is Err;
        first_refused(targets, limits, looks, j)
    } else {
        i
    }
}

/// A ready entry is refused as nested when, and only when, a target of it lies within a target of
/// another ready entry, strictly or in the same place behind it in the batch. An entry that will
/// not run swallows nothing, and everything else comes out as it went in.
pub proof fn only_a_ready_entry_swallows_another(planned: Seq<PlannedSpec>, i: int)
    requires
        0 <= i < planned.len(),
    ensures
        unnested(planned).len() == planned.len(),
        planned[i].status != EntryStatus::Ready ==> unnested(planned)[i] == planned[i],
        planned[i].status == EntryStatus::Ready ==> {
            let swallowed = exists|j: int, t: int, o: int|
                #![trigger planned[j].judged[o], planned[i].judged[t]]
                {
                    &&& 0 <= j < planned.len()
                    &&& j != i
                    &&& planned[j].status == EntryStatus::Ready
                    &&& 0 <= t < planned[i].judged.len()
                    &&& 0 <= o < planned[j].judged.len()
                    &&& within(planned[i].judged[t], planned[j].judged[o])
                    &&& j < i || !same_path(planned[i].judged[t], planned[j].judged[o])
                };
            &&& swallowed ==> unnested(planned)[i].status == EntryStatus::Blocked(BlockReason::Nested)
            &&& !swallowed ==> unnested(planned)[i] == planned[i]
        },
{
    if planned[i].status == EntryStatus::Ready {
        if contained(planned, i) {
            let j = choose|j: int| #[trigger] contains_entry(planned, j, i);
            let earlier = j < i;
            assert(reaches_into(planned[i].judged, planned[j].judged, earlier));
            let (t, o) = choose|t: int, o: int|
                0 <= t < planned[i].judged.len() && 0 <= o < planned[j].judged.len()
                    && #[trigger] lies_in(planned[i].judged[t], planned[j].judged[o], earlier);
            assert(within(planned[i].judged[t], planned[j].judged[o]));
        }
        if exists|j: int, t: int, o: int|
            #![trigger planned[j].judged[o], planned[i].judged[t]]
            {
                &&& 0 <= j < planned.len()
                &&& j != i
                &&& planned[j].status == EntryStatus::Ready
                &&& 0 <= t < planned[i].judged.len()
                &&& 0 <= o < planned[j].judged.len()
                &&& within(planned[i].judged[t], planned[j].judged[o])
                &&& j < i || !same_path(planned[i].judged[t], planned[j].judged[o])
            } {
            let (j, t, o) = choose|j: int, t: int, o: int|
                #![trigger planned[j].judged[o], planned[i].judged[t]]
                {
                    &&& 0 <= j < planned.len()
                    &&& j != i
                    &&& planned[j].status == EntryStatus::Ready
                    &&& 0 <= t < planned[i].judged.len()
                    &&& 0 <= o < planned[j].judged.len()
                    &&& within(planned[i].judged[t], planned[j].judged[o])
                    &&& j < i || !same_path(planned[i].judged[t], planned[j].judged[o])
                };
            assert(lies_in(planned[i].judged[t], planned[j].judged[o], j < i));
            assert(contains_entry(planned, j, i));
        }
    }
}

/// What a preview promises is the sum of the sizes of the entries that are ready, and of no
/// others; a sum beyond the largest number is that number.
pub proof fn a_preview_promises_what_is_ready(planned: Seq<PlannedSpec>, k: nat)
    requires
        k <= planned.len(),
    ensures
        ({
            let sum = total(
                planned.take(k as int),
                |entry: PlannedSpec|
                    if entry.status == EntryStatus::Ready {
                        entry.size as nat
                    } else {
                        0
                    },
            );
            promised(planned, k) == if sum <= u64::MAX {
                sum
            } else {
                u64::MAX as nat
            }
        }),
    decreases k,
{
    let size = |entry: PlannedSpec|
        if entry.status == EntryStatus::Ready {
            entry.size as nat
        } else {
            0
        };
    if k > 0 {
        a_preview_promises_what_is_ready(planned, (k - 1) as nat);
        let now = planned.take(k as int);
        assert(now.drop_last() =~= planned.take(k - 1));
        assert(now.last() == planned[k - 1]);
        assert(total(now, size) == total(now.drop_last(), size) + size(now.last()));
    }
}

/// The dialog shows a deletion as what the mode makes of it, at the path that will really be
/// deleted where the preview got to look at it.
pub proof fn a_deletion_is_shown_where_it_happens(
    target: TargetSpec,
    inspected: Seq<(Seq<char>, Seq<char>)>,
    i: int,
)
    requires
        0 <= i < inspected.len(),
        same_path(inspected[i].0, target.path),
        forall|j: int| i < j < inspected.len() ==> !same_path((#[trigger] inspected[j]).0, target.path),
    ensures
        viewed(StepSpec::Delete(target), Mode::Trash, inspected) == StepViewSpec::Trash(inspected[i].1),
        viewed(StepSpec::Delete(target), Mode::Permanent, inspected) == StepViewSpec::Delete(
            inspected[i].1,
        ),
{
    shown_is(target.path, inspected, i);
}

proof fn shown_is(path: Seq<char>, inspected: Seq<(Seq<char>, Seq<char>)>, i: int)
    requires
        0 <= i < inspected.len(),
        same_path(inspected[i].0, path),
        forall|j: int| i < j < inspected.len() ==> !same_path((#[trigger] inspected[j]).0, path),
    ensures
        shown_path(path, inspected) == inspected[i].1,
    decreases inspected.len(),
{
    if i < inspected.len() - 1 {
        let fewer = inspected.drop_last();
        assert(!same_path(inspected[inspected.len() - 1].0, path));
        assert forall|j: int| i < j < fewer.len() implies !same_path((#[trigger] fewer[j]).0, path) by {
            assert(!same_path(inspected[j].0, path));
        }
        shown_is(path, fewer, i);
    }
}

/// Whether a step does what it is for: what it deletes passes as it was seen and is deleted, and
/// its program is there, starts and ends with zero.
pub open spec fn step_succeeds(step: StepSpec, limits: LimitsSpec, run: StepRun) -> bool {
    match step {
        StepSpec::Delete(target) => {
            &&& target_checks(target, false, limits, run.look@) is Ok
            &&& run.deleted is Ok
        },
        StepSpec::Run(command, effect) => {
            &&& effect matches EffectSpec::Removes(target) ==> target_checks(
                target,
                true,
                limits,
                run.look@,
            ) is Ok
            &&& run.ran matches Some(Ok(output))
            &&& output.status == Some(0i32)
        },
    }
}

/// Whether a step is refused before it does anything: what it deletes does not pass, or is gone
/// when its turn comes. The reason is what is said of it.
pub open spec fn step_refused(
    step: StepSpec,
    limits: LimitsSpec,
    run: StepRun,
    reason: BlockReason,
) -> bool {
    match step {
        StepSpec::Delete(target) => {
            let checked = target_checks(target, false, limits, run.look@);
            ||| checked is Err && checked->Err_0 == reason
            ||| checked is Ok && reason == BlockReason::Missing && run.deleted is Err
                && run.deleted->Err_0.kind == SystemErrorKind::Missing
        },
        StepSpec::Run(command, EffectSpec::Removes(target)) => {
            let checked = target_checks(target, true, limits, run.look@);
            checked is Err && checked->Err_0 == reason
        },
        StepSpec::Run(_, _) => false,
    }
}

proof fn a_step_goes_on_when_it_succeeds(
    step: StepSpec,
    index: nat,
    count: nat,
    limits: LimitsSpec,
    run: StepRun,
)
    ensures
        step_end(step, index, count, limits, run).result is None <==> step_succeeds(
            step,
            limits,
            run,
        ),
        !(step_end(step, index, count, limits, run).result matches Some(
            EntryResultSpec::Removed(_),
        )),
        forall|reason: BlockReason| #[trigger]
            step_refused(step, limits, run, reason) && index == 0 ==> step_end(
                step,
                index,
                count,
                limits,
                run,
            ).result == Some(EntryResultSpec::Skipped(reason)),
        step_end(step, index, count, limits, run).result matches Some(
            EntryResultSpec::Skipped(reason),
        ) ==> index == 0 && step_refused(step, limits, run, reason),
{
}

proof fn all_steps_ran(steps: Seq<StepSpec>, limits: LimitsSpec, runs: Seq<StepRun>, k: nat)
    requires
        k <= steps.len(),
        forall|i: int| 0 <= i < k ==> step_succeeds(#[trigger] steps[i], limits, runs[i]),
    ensures
        ran_so_far(steps, limits, runs, k).result is None,
        ran_so_far(steps, limits, runs, k).commands.len() <= k,
    decreases k,
{
    if k > 0 {
        all_steps_ran(steps, limits, runs, (k - 1) as nat);
        assert(step_succeeds(steps[k - 1], limits, runs[k - 1]));
        a_step_goes_on_when_it_succeeds(
            steps[k - 1],
            (k - 1) as nat,
            steps.len(),
            limits,
            runs[k - 1],
        );
    }
}

proof fn stopped_at(steps: Seq<StepSpec>, limits: LimitsSpec, runs: Seq<StepRun>, i: int, n: nat)
    requires
        0 <= i < n <= steps.len(),
        forall|j: int| 0 <= j < i ==> step_succeeds(#[trigger] steps[j], limits, runs[j]),
        !step_succeeds(steps[i], limits, runs[i]),
    ensures
        ran_so_far(steps, limits, runs, n) == ran_so_far(steps, limits, runs, (i + 1) as nat),
        ran_so_far(steps, limits, runs, n).result == step_end(
            steps[i],
            i as nat,
            steps.len(),
            limits,
            runs[i],
        ).result,
        ran_so_far(steps, limits, runs, n).result is Some,
        ran_so_far(steps, limits, runs, n).commands.len() <= i + 1,
    decreases n,
{
    all_steps_ran(steps, limits, runs, i as nat);
    a_step_goes_on_when_it_succeeds(steps[i], i as nat, steps.len(), limits, runs[i]);
    if i + 1 < n {
        stopped_at(steps, limits, runs, i, (n - 1) as nat);
    }
}

/// An entry is removed, with the size that was promised, exactly when it was ready and every step
/// of it did what it is for.
pub proof fn an_entry_is_removed_when_every_step_succeeds(
    planned: PlannedSpec,
    limits: LimitsSpec,
    runs: Seq<StepRun>,
)
    ensures
        ran_entry(planned, limits, runs).result == Some(EntryResultSpec::Removed(planned.size)) <==> {
            &&& planned.status == EntryStatus::Ready
            &&& forall|i: int|
                0 <= i < planned.steps.len() ==> step_succeeds(
                    #[trigger] planned.steps[i],
                    limits,
                    runs[i],
                )
        },
        planned.status matches EntryStatus::Blocked(reason) ==> {
            let ran = ran_entry(planned, limits, runs);
            &&& ran.result == Some(EntryResultSpec::Skipped(reason))
            &&& ran.targets.len() == 0
            &&& ran.commands.len() == 0
        },
{
    let steps = planned.steps;
    if planned.status == EntryStatus::Ready {
        if forall|i: int|
            0 <= i < steps.len() ==> step_succeeds(#[trigger] steps[i], limits, runs[i]) {
            all_steps_ran(steps, limits, runs, steps.len());
        } else {
            let i = choose|i: int|
                0 <= i < steps.len() && !step_succeeds(#[trigger] steps[i], limits, runs[i]);
            let first = first_that_fails(steps, limits, runs, i);
            stopped_at(steps, limits, runs, first, steps.len());
            a_step_goes_on_when_it_succeeds(
                steps[first],
                first as nat,
                steps.len(),
                limits,
                runs[first],
            );
        }
    }
}

proof fn first_that_fails(
    steps: Seq<StepSpec>,
    limits: LimitsSpec,
    runs: Seq<StepRun>,
    i: int,
) -> (first: int)
    requires
        0 <= i < steps.len(),
        !step_succeeds(steps[i], limits, runs[i]),
    ensures
        0 <= first <= i,
        !step_succeeds(steps[first], limits, runs[first]),
        forall|j: int| 0 <= j < first ==> step_succeeds(#[trigger] steps[j], limits, runs[j]),
    decreases i,
{
    if exists|j: int| 0 <= j < i && !step_succeeds(#[trigger] steps[j], limits, runs[j]) {
        let j = choose|j: int| 0 <= j < i && !step_succeeds(#[trigger] steps[j], limits, runs[j]);
        first_that_fails(steps, limits, runs, j)
    } else {
        i
    }
}

/// The first step that does not do what it is for ends the entry: nothing after it starts. The
/// entry is skipped where that is the first step and it was refused before it did anything, and
/// has failed otherwise, since something may have been done by then.
pub proof fn the_first_failure_ends_an_entry(
    planned: PlannedSpec,
    limits: LimitsSpec,
    runs: Seq<StepRun>,
    i: int,
)
    requires
        planned.status == EntryStatus::Ready,
        0 <= i < planned.steps.len(),
        forall|j: int| 0 <= j < i ==> step_succeeds(#[trigger] planned.steps[j], limits, runs[j]),
        !step_succeeds(planned.steps[i], limits, runs[i]),
    ensures
        ran_entry(planned, limits, runs).commands.len() <= i + 1,
        i > 0 ==> ran_entry(planned, limits, runs).result->0 is Failed,
        forall|reason: BlockReason| #[trigger]
            step_refused(planned.steps[i], limits, runs[i], reason) && i == 0 ==> ran_entry(
                planned,
                limits,
                runs,
            ).result == Some(EntryResultSpec::Skipped(reason)),
        (forall|reason: BlockReason| !#[trigger]
            step_refused(planned.steps[i], limits, runs[i], reason)) ==> ran_entry(
            planned,
            limits,
            runs,
        ).result->0 is Failed,
{
    stopped_at(planned.steps, limits, runs, i, planned.steps.len());
    a_step_goes_on_when_it_succeeds(
        planned.steps[i],
        i as nat,
        planned.steps.len(),
        limits,
        runs[i],
    );
}

/// An entry left by way of the Trash when the batch ran in Trash mode and every step of it is a
/// deletion or housekeeping; anything else left for good.
pub proof fn an_entry_says_how_it_left(
    outcome: CleanupEntryOutcome,
    planned: PlannedSpec,
    mode: Mode,
    ran: RanSpec,
)
    requires
        becomes(outcome, planned, mode, ran),
    ensures
        outcome.mode == Mode::Trash <==> mode == Mode::Trash && forall|i: int|
            0 <= i < planned.steps.len() ==> match #[trigger] planned.steps[i] {
                StepSpec::Delete(_) => true,
                StepSpec::Run(_, EffectSpec::Housekeeping) => true,
                StepSpec::Run(_, EffectSpec::Destroys) => false,
                StepSpec::Run(_, EffectSpec::Removes(_)) => false,
            },
{
    let steps = planned.steps;
    assert forall|i: int| 0 <= i < steps.len() implies undoable(#[trigger] steps[i])
        == match steps[i] {
        StepSpec::Delete(_) => true,
        StepSpec::Run(_, EffectSpec::Housekeeping) => true,
        StepSpec::Run(_, EffectSpec::Destroys) => false,
        StepSpec::Run(_, EffectSpec::Removes(_)) => false,
    } by {}
}

/// What is said of a step names it where there are several: one alone is not numbered.
pub proof fn a_step_is_numbered_among_several(what: Seq<char>, index: nat, count: nat)
    requires
        index < count,
    ensures
        count == 1 ==> at_step(what, index, count) == what,
        count > 1 ==> at_step(what, index, count) == "step "@ + decimal_text(index + 1) + " of "@
            + decimal_text(count) + ", "@ + what,
{
}

/// A cleanup answers every entry it planned, in their order and under their names, and frees what
/// it removed and no more. It says before each entry how many are done, and once all of them are
/// that none is left.
pub proof fn a_cleanup_answers_every_entry(
    outcome: CleanupOutcome,
    reports: Seq<Progress>,
    planned: Seq<PlannedSpec>,
    limits: LimitsSpec,
    runs: Seq<Vec<StepRun>>,
    mode: Mode,
    at: Timestamp,
)
    requires
        runs_through(outcome, reports, planned, limits, runs, mode, at),
    ensures
        outcome.at == at,
        outcome.mode == mode,
        outcome.entries@.len() == planned.len(),
        forall|i: int|
            0 <= i < planned.len() ==> {
                let entry = #[trigger] outcome.entries@[i];
                &&& entry.item@ == planned[i].item_id
                &&& entry.module@ == planned[i].module
                &&& entry.title@ == planned[i].title
                &&& entry.action@ == planned[i].action
                &&& opt_text(entry.path) == planned[i].path
                &&& entry.kind == planned[i].kind
                &&& planned[i].status matches EntryStatus::Blocked(reason) ==> entry.result@
                    == EntryResultSpec::Skipped(reason) && entry.targets@.len() == 0
                    && entry.commands@.len() == 0
                &&& entry.result@ matches EntryResultSpec::Removed(bytes) ==> planned[i].status
                    is Ready
            },
        ({
            let sum = total(
                outcome.entries@,
                |entry: CleanupEntryOutcome|
                    match entry.result@ {
                        EntryResultSpec::Removed(bytes) => bytes as nat,
                        EntryResultSpec::Failed(_) => 0,
                        EntryResultSpec::Skipped(_) => 0,
                    },
            );
            outcome.freed_bytes == if sum <= u64::MAX {
                sum
            } else {
                u64::MAX as nat
            }
        }),
        reports.len() == planned.len() + 1,
        forall|i: int|
            0 <= i < reports.len() ==> (#[trigger] reports[i]).done == i && reports[i].total
                == planned.len(),
        forall|i: int|
            0 <= i < planned.len() ==> opt_text((#[trigger] reports[i]).current) == Some(
                planned[i].title,
            ),
        reports.last().current is None,
{
    let entries = outcome.entries@;
    freed_is_what_was_removed(entries, entries.len());
    assert(entries.take(entries.len() as int) =~= entries);
    assert forall|i: int| 0 <= i < planned.len() && planned[i].status is Blocked implies {
        let entry = #[trigger] entries[i];
        &&& entry.targets@.len() == 0
        &&& entry.commands@.len() == 0
    } by {
        assert(texts(entries[i].targets@).len() == entries[i].targets@.len());
        assert(word_lists(entries[i].commands@).len() == entries[i].commands@.len());
    }
    assert(opt_text(reports.last().current) is None);
}

proof fn freed_is_what_was_removed(entries: Seq<CleanupEntryOutcome>, k: nat)
    requires
        k <= entries.len(),
    ensures
        ({
            let sum = total(
                entries.take(k as int),
                |entry: CleanupEntryOutcome|
                    match entry.result@ {
                        EntryResultSpec::Removed(bytes) => bytes as nat,
                        EntryResultSpec::Failed(_) => 0,
                        EntryResultSpec::Skipped(_) => 0,
                    },
            );
            freed_bytes(results(entries), k) == if sum <= u64::MAX {
                sum
            } else {
                u64::MAX as nat
            }
        }),
    decreases k,
{
    let size = |entry: CleanupEntryOutcome|
        match entry.result@ {
            EntryResultSpec::Removed(bytes) => bytes as nat,
            EntryResultSpec::Failed(_) => 0,
            EntryResultSpec::Skipped(_) => 0,
        };
    if k > 0 {
        freed_is_what_was_removed(entries, (k - 1) as nat);
        let now = entries.take(k as int);
        assert(now.drop_last() =~= entries.take(k - 1));
        assert(now.last() == entries[k - 1]);
        assert(total(now, size) == total(now.drop_last(), size) + size(now.last()));
        assert(results(entries)[k - 1] == entries[k - 1].result@);
    }
}

} // verus!
