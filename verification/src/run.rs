use crate::ai::{Ai, fissions, gives_up, Many, planned, trailing_waits};
use crate::bot::Cmd;
use crate::error::NanoBotError;
use crate::geometry::Cord;
use crate::laws::{can_take, clean, lemma_clean_run, run_of};
use crate::model::Model;
use crate::state::{starts, SystemView};
use crate::system::System;
use crate::target::{depth, grounded, has_cord, ranked_within};
use crate::trace::Trace;
use vstd::prelude::*;

verus! {

/// What a run has left: the planner that was used, the energy that was spent where the
/// system halted, and the system as the run left it.
pub struct RunResult {
    pub ai: Ai,
    pub energy: Option<i64>,
    pub system: System,
}

impl RunResult {
    /// The commands that the run has recorded.
    pub fn trace(&self) -> (t: Trace)
        ensures
            t.cmds@ == self.system.records@,
    {
        let mut cmds: Vec<Cmd> = Vec::new();
        let mut k: usize = 0;
        while k < self.system.records.len()
            invariant
                k <= self.system.records.len(),
                cmds@ == self.system.records@.subrange(0, k as int),
            decreases self.system.records.len() - k,
        {
            cmds.push(self.system.records[k]);
            assert(cmds@ =~= self.system.records@.subrange(0, k + 1));
            k = k + 1;
        }
        assert(cmds@ =~= self.system.records@);
        Trace { cmds }
    }

    /// The name of the model that was worked.
    pub fn model_name(&self) -> (s: String)
        ensures
            s@ == self.system.model_id.spec_name(),
    {
        self.system.model_id.name()
    }
}

/// Whether `energy` is less than the best that is known, if any is.
pub fn is_best(best: Option<i64>, energy: i64) -> (b: bool)
    ensures
        b == match best {
            Some(known) => energy < known,
            None => true,
        },
{
    match best {
        Some(known) => energy < known,
        None => true,
    }
}

/// Whether a chain of steps between targets that share a face leads from the ground to the
/// target `c`.
pub open spec fn on_ground(model: &Model, c: Cord) -> bool {
    exists|n: nat| grounded(model, c, n)
}

/// What the matrix holds when the work on `model` is done: assembled, the targets that
/// stand on the ground; taken apart, the targets that do not.
pub open spec fn done(model: &Model, c: Cord) -> bool {
    if on_ground(model, c) {
        model.id.is_assemble()
    } else {
        !model.id.is_assemble() && model.is_target(c)
    }
}

/// Works `model` with the planner `ai`. The result holds the energy where the system has
/// halted, and none where the plan was given up. Either way the system is the one that the
/// recorded commands, each of them chosen by the planner and taken by the simulator, have
/// made of the state in which the work starts.
pub fn solve(model: &Model, ai: Ai) -> (res: Result<RunResult, NanoBotError>)
    requires
        model.wf(),
        1 <= model.r,
    ensures
        res matches Ok(run) && {
            &&& run.ai == ai
            &&& run.system.wf()
            &&& run.system@.model_id == model.id
            &&& run.system@.r == model.r
            &&& run.energy matches Some(e) ==> {
                &&& e == run.system@.energy
                &&& !run.system@.live()
                &&& run.system@.targets.len() == 0
                &&& run.system@.records.len() > 0
                &&& run.system@.records.last() is Halt
                &&& forall|c: Cord| #[trigger] run.system@.full.contains(c) == done(model, c)
            }
            &&& run.energy is None ==> !(run.system@.records.len() > 0
                && run.system@.records.last() is Halt) && gives_up(
                run.system@,
                ai->Many_0 - fissions(run.system@.records),
                trailing_waits(run.system@.records) as int,
            ) is Some
            &&& exists|first: SystemView| #[trigger]
                starts(model, first) && clean(first, run.system@.records) && run.system@ == run_of(
                    first,
                    run.system@.records,
                ) && planned(first, ai->Many_0 as int, run.system@.records)
        },
{
    let mut system = System::new(model);
    let ghost first = system@;
    let result = match ai {
        Ai::Many(bots) => {
            let mut planner = Many::new(bots);
            planner.solve(&mut system)
        },
    };
    proof {
        if result is Ok {
            let last = system@;
            assert forall|c: Cord| #[trigger] last.full.contains(c) == done(model, c) by {
                assert(!has_cord(last.targets, c));
                if has_cord(first.targets, c) {
                    let k = choose|k: int| 0 <= k < first.targets.len() && first.targets[k].cord == c;
                    assert(grounded(model, first.targets[k].cord, depth(first.targets[k].priority)));
                }
                if on_ground(model, c) {
                    let n = choose|n: nat| grounded(model, c, n);
                    assert(ranked_within(first.targets, c, n));
                }
            }
        }
        assert(first.records.len() == 0);
        assert(crate::ai::appended(first, system@) =~= system@.records);
        assert(starts(model, first));
        assert(clean(first, system@.records));
        assert(system@ == run_of(first, system@.records));
        assert(planned(first, ai->Many_0 as int, system@.records));
    }
    match result {
        Ok(_) => Ok(RunResult { energy: Some(system.energy), ai, system }),
        Err(_) => Ok(RunResult { energy: None, ai, system }),
    }
}


/// Work on a model starts in one state and no other.
pub proof fn lemma_starts_unique(model: &Model, first: SystemView, again: SystemView)
    requires
        starts(model, first),
        starts(model, again),
    ensures
        first == again,
{
    crate::target::lemma_ranks_unique(model, first.targets, again.targets);
    assert forall|c: crate::geometry::Cord| first.full.contains(c) == again.full.contains(c) by {
        assert(first.full.contains(c) <==> (!model.id.is_assemble() && model.is_target(c)));
        assert(again.full.contains(c) <==> (!model.id.is_assemble() && model.is_target(c)));
    }
    assert(first.full =~= again.full);
    assert(first.new_bots =~= again.new_bots);
    assert(first.removed =~= again.removed);
    assert(first.reserved =~= again.reserved);
    assert(first.records =~= again.records);
    assert(first =~= again);
}

/// The first commands of a clean run are a clean run, and the state that they leave can
/// take the command that follows them.
pub proof fn lemma_clean_prefix(v: SystemView, cmds: Seq<Cmd>, m: int)
    requires
        clean(v, cmds),
        0 <= m <= cmds.len(),
    ensures
        clean(v, cmds.subrange(0, m)),
        m < cmds.len() ==> can_take(run_of(v, cmds.subrange(0, m)), cmds[m]),
    decreases cmds.len() - m,
{
    if m == cmds.len() {
        assert(cmds.subrange(0, m) =~= cmds);
    } else {
        lemma_clean_prefix(v, cmds, m + 1);
        let longer = cmds.subrange(0, m + 1);
        assert(longer.drop_last() =~= cmds.subrange(0, m));
        assert(longer.last() == cmds[m]);
    }
}

/// The trace of a run that has halted can be replayed from the start of the work, and the
/// replay ends where the run ended. A replay carries out commands while the state can take
/// them and stops behind `Halt`: where it has stopped after `m` commands of a clean trace
/// that ends with `Halt`, it has carried out all of them, and the state that it has reached
/// is the state that the run has left.
pub proof fn lemma_replay_ends(
    model: &Model,
    first: SystemView,
    again: SystemView,
    cmds: Seq<Cmd>,
    m: int,
)
    requires
        starts(model, first),
        starts(model, again),
        first.inv(),
        clean(first, cmds),
        cmds.len() > 0,
        cmds.last() is Halt,
        0 <= m <= cmds.len(),
        m == cmds.len() || !can_take(run_of(again, cmds.subrange(0, m)), cmds[m]) || (m > 0
            && cmds[m - 1] is Halt),
    ensures
        m == cmds.len(),
        run_of(again, cmds.subrange(0, m)) == run_of(first, cmds),
{
    lemma_starts_unique(model, first, again);
    lemma_clean_prefix(first, cmds, m);
    lemma_clean_run(first, cmds);
    assert(cmds.subrange(0, cmds.len() as int) =~= cmds);
}

} // verus!
