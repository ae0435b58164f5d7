//! Plans that were asked for ahead of a batch.
//!
//! A module may live where only its answers can be had. [`Plans`] keeps those answers, one
//! line for each question, and answers the cleanup engine from them.

use super::item::{ActionSpec, Item};
use super::step::{copy_pairs, step_views, Command, Effect, Step, StepSpec, Target};
use super::Module;
use crate::action::model::Mode;
use crate::text::{copy_all, copy_opt, same, texts};
use vstd::prelude::*;

verus! {

/// What was answered to one question.
#[derive(Debug, Clone, PartialEq, Eq)]
pub struct PlanLine {
    /// The id of the item.
    pub item: String,
    /// The id of the action.
    pub action: String,
    /// The ids of the options turned on.
    pub options: Vec<String>,
    pub mode: Mode,
    pub steps: Vec<Step>,
}

/// Whether a line answers a question.
pub open spec fn answers(
    line: PlanLine,
    item: Seq<char>,
    action: Seq<char>,
    options: Seq<Seq<char>>,
    mode: Mode,
) -> bool {
    &&& line.item@ == item
    &&& line.action@ == action
    &&& texts(line.options@) == options
    &&& line.mode == mode
}

/// The steps of the first line that answers a question; none where no line does.
pub open spec fn answer_in(
    lines: Seq<PlanLine>,
    item: Seq<char>,
    action: Seq<char>,
    options: Seq<Seq<char>>,
    mode: Mode,
) -> Seq<StepSpec>
    decreases lines.len(),
{
    if lines.len() == 0 {
        Seq::empty()
    } else if answers(lines[0], item, action, options, mode) {
        step_views(lines[0].steps@)
    } else {
        answer_in(lines.drop_first(), item, action, options, mode)
    }
}

fn copy_target(target: &Target) -> (copy: Target)
    ensures
        copy@ == target@,
{
    Target { path: target.path.clone(), kind: target.kind }
}

fn copy_command(command: &Command) -> (copy: Command)
    ensures
        copy@ == command@,
{
    Command {
        tool: command.tool.clone(),
        args: copy_all(&command.args),
        cwd: copy_opt(&command.cwd),
        env: copy_pairs(&command.env),
    }
}

fn copy_step(step: &Step) -> (copy: Step)
    ensures
        copy@ == step@,
{
    match step {
        Step::Delete(target) => Step::Delete(copy_target(target)),
        Step::Run { command, effect } => Step::Run {
            command: copy_command(command),
            effect: match effect {
                Effect::Housekeeping => Effect::Housekeeping,
                Effect::Destroys => Effect::Destroys,
                Effect::Removes(target) => Effect::Removes(copy_target(target)),
            },
        },
    }
}

fn copy_steps(steps: &Vec<Step>) -> (copy: Vec<Step>)
    ensures
        step_views(copy@) == step_views(steps@),
{
    let mut copy: Vec<Step> = Vec::new();
    let mut i: usize = 0;
    while i < steps.len()
        invariant
            i <= steps.len(),
            copy.len() == i,
            forall|k: int| 0 <= k < i ==> (#[trigger] copy@[k])@ == steps@[k]@,
        decreases steps.len() - i,
    {
        copy.push(copy_step(&steps[i]));
        i += 1;
    }
    assert(step_views(copy@) =~= step_views(steps@));
    copy
}

/// Whether two lists hold the same strings in the same order.
fn same_all(a: &Vec<String>, b: &Vec<String>) -> (r: bool)
    ensures
        r == (texts(a@) == texts(b@)),
{
    if a.len() != b.len() {
        assert(texts(a@).len() != texts(b@).len());
        return false;
    }
    let mut i: usize = 0;
    while i < a.len()
        invariant
            i <= a.len() == b.len(),
            forall|k: int| 0 <= k < i ==> (#[trigger] a@[k])@ == b@[k]@,
        decreases a.len() - i,
    {
        if !same(&a[i], &b[i]) {
            assert(texts(a@)[i as int] != texts(b@)[i as int]);
            return false;
        }
        i += 1;
    }
    assert(texts(a@) =~= texts(b@));
    true
}

/// Plans that were asked for ahead of a batch, the first of several answers to one question
/// being the one that counts.
#[derive(Debug, Clone, PartialEq, Eq)]
pub struct Plans {
    pub lines: Vec<PlanLine>,
}

impl Module for Plans {
    open spec fn planned(
        &self,
        item: Item,
        action: ActionSpec,
        options: Seq<Seq<char>>,
        mode: Mode,
    ) -> Seq<StepSpec> {
        answer_in(self.lines@, item.id@, action.id@, options, mode)
    }

    fn plan(&self, item: &Item, action: &ActionSpec, options: &Vec<String>, mode: Mode) -> (steps:
        Vec<Step>) {
        let ghost asked = texts(options@);
        let mut i: usize = 0;
        assert(self.lines@.skip(0) =~= self.lines@);
        while i < self.lines.len()
            invariant
                i <= self.lines.len(),
                asked == texts(options@),
                answer_in(self.lines@, item.id@, action.id@, asked, mode) == answer_in(
                    self.lines@.skip(i as int),
                    item.id@,
                    action.id@,
                    asked,
                    mode,
                ),
            decreases self.lines.len() - i,
        {
            let line: &PlanLine = &self.lines[i];
            assert(self.lines@.skip(i as int)[0] == *line);
            assert(self.lines@.skip(i as int).drop_first() =~= self.lines@.skip(i + 1));
            if same(&line.item, &item.id) && same(&line.action, &action.id) && line.mode == mode
                && same_all(&line.options, options) {
                return copy_steps(&line.steps);
            }
            i += 1;
        }
        let steps: Vec<Step> = Vec::new();
        assert(step_views(steps@) =~= Seq::empty());
        steps
    }
}

} // verus!
