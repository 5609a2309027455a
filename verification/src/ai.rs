use crate::bot::Cmd;
use crate::geometry::{Cord, Near};
use crate::laws::{
    clean, lemma_inv_facts, lemma_reserved_pair, lemma_run_push, lemma_step_facts, lemma_step_work,
    run_of, work_target,
};
use crate::geometry::face_diffs;
use crate::queries::{can_join, first_free_side, first_partner};
use crate::search::{
    first_of, first_or_wait, has_near, heads_to, reachable, route, route_near, scan_from, way_found,
    way_to,
};
use crate::target::top_cords;
use crate::state::{lookup, SystemView};
use crate::system::{Harmonics, MAX_TRACE, System};
use crate::target::has_cord;
use vstd::prelude::*;

verus! {

/// The planners that a run can use, each with what it needs to know.
#[derive(Copy, Clone, Debug)]
pub enum Ai {
    /// The greedy planner, with the number of bots that it works with.
    Many(usize),
}

/// The greedy planner: it splits bots off until it has as many as it was asked for, sends
/// each to the nearest target of lowest priority, and at the end fuses them at the origin.
pub struct Many {
    bots: usize,
}

/// Why a plan was given up.
#[derive(Debug, Clone, Copy, PartialEq, Eq, Structural)]
pub enum PlanError {
    /// The tenth wait in a row was due.
    Stall,
    /// The last bot has no way to the origin.
    NoWayHome,
    /// The trace is as long as a system records.
    TraceFull,
}

/// The trace `after` begins with the trace `before`.
pub open spec fn extends(before: Seq<Cmd>, after: Seq<Cmd>) -> bool {
    before.len() <= after.len() && after.subrange(0, before.len() as int) == before
}

/// No command of `records` from place `from` up to place `to` is `Halt`.
pub open spec fn no_halt_between(records: Seq<Cmd>, from: int, to: int) -> bool {
    forall|i: int| from <= i < to && 0 <= i < records.len() ==> !(#[trigger] records[i] is Halt)
}

/// The last `n` commands of `records` are `Wait`.
pub open spec fn waits_at_end(records: Seq<Cmd>, n: int) -> bool {
    n <= records.len() && forall|i: int|
        records.len() - n <= i < records.len() ==> #[trigger] records[i] is Wait
}

/// The commands that the trace of `v` holds beyond the trace of `start`.
pub open spec fn appended(start: SystemView, v: SystemView) -> Seq<Cmd> {
    v.records.subrange(start.records.len() as int, v.records.len() as int)
}

/// The origin, where the run starts and ends.
pub open spec fn origin() -> Cord {
    Cord { x: 0, y: 0, z: 0 }
}

/// Whether the bot whose turn it is can split: it has a seed, and a voxel at one of its
/// faces is free.
pub open spec fn can_split(v: SystemView) -> bool {
    v.cur().seeds.len() > 0 && first_free_side(v, 6) < 6
}

/// The fission by which the bot whose turn it is hands half of its seeds, rounded down and
/// the new bot's own identity not counted, to a bot on the first free voxel at its faces.
pub open spec fn split_cmd(v: SystemView) -> Cmd {
    Cmd::Fission(
        Near(face_diffs()[first_free_side(v, 6)]),
        (v.cur().seeds.len() / 2) as usize,
    )
}

/// What the planner chooses for the bot whose turn it is while targets are left: a fission,
/// while more than one bot is still to come and the bot can split; else the next command on
/// the way to the free targets of lowest priority, or the work on one of them.
pub open spec fn build_choice(v: SystemView, budget: int) -> Cmd {
    if budget > 1 && can_split(v) {
        split_cmd(v)
    } else {
        v.target_cmd(top_cords(v.free_targets()))
    }
}

/// What a bot does next on its way to a voxel near the origin: the first command of the
/// way that a search finds to a voxel that has the origin near it; `Wait` where it stands on
/// such a voxel or the search finds none.
pub open spec fn near_origin_cmd(v: SystemView) -> Cmd {
    first_of(way_found(scan_from(v, v.cur().pos, has_near(v, seq![origin()]))))
}

/// What the planner chooses for the bot whose turn it is when no target is left. The last
/// bot halts at the origin and else goes there. Of several bots, one that is to be taken
/// over answers the bot that takes it over; one that has a bot near it, behind it in the
/// order of the step and not yet spoken for, takes the first such bot over; one at the
/// origin waits; and any other goes to the origin, or toward it while the origin is taken.
pub open spec fn gather_choice(v: SystemView) -> Cmd {
    let pos = v.cur().pos;
    if v.bots.len() == 1 {
        if pos == origin() {
            Cmd::Halt
        } else {
            first_of(way_to(v, pos, origin()))
        }
    } else if lookup(v.reserved, pos) is Some {
        Cmd::FusionS(Near(lookup(v.reserved, pos)->0.diff_from(pos)))
    } else if first_partner(v, v.bot_index + 1) < v.bots.len() {
        Cmd::FusionP(Near(v.bots[first_partner(v, v.bot_index + 1)].pos.diff_from(pos)))
    } else if pos == origin() {
        Cmd::Wait
    } else if v.blocked(origin()) {
        near_origin_cmd(v)
    } else {
        first_of(way_to(v, pos, origin()))
    }
}

/// What the planner chooses for the bot whose turn it is, with `budget` bots still to come
/// and one.
pub open spec fn choice(v: SystemView, budget: int) -> Cmd {
    if v.targets.len() > 0 {
        build_choice(v, budget)
    } else {
        gather_choice(v)
    }
}

/// The number of waits at the end of the commands.
pub open spec fn trailing_waits(cmds: Seq<Cmd>) -> nat
    decreases cmds.len(),
{
    if cmds.len() == 0 || !(cmds.last() is Wait) {
        0
    } else {
        trailing_waits(cmds.drop_last()) + 1
    }
}

/// Why the planner gives up in the state `v`, if it does, with `budget` bots still to come
/// and one, and after `waits` waits in a row: because the trace is full; because the last
/// bot, away from the origin, finds no way there; or because the tenth wait in a row is
/// due.
pub open spec fn gives_up(v: SystemView, budget: int, waits: int) -> Option<PlanError> {
    if v.records.len() >= MAX_TRACE {
        Some(PlanError::TraceFull)
    } else if v.targets.len() == 0 && v.bots.len() == 1 {
        if v.cur().pos != origin() && choice(v, budget) is Wait {
            Some(PlanError::NoWayHome)
        } else {
            None
        }
    } else if choice(v, budget) is Wait && waits == 9 {
        Some(PlanError::Stall)
    } else {
        None
    }
}

/// The number of fissions among the commands.
pub open spec fn fissions(cmds: Seq<Cmd>) -> nat
    decreases cmds.len(),
{
    if cmds.len() == 0 {
        0
    } else {
        fissions(cmds.drop_last()) + if cmds.last() is Fission {
            1nat
        } else {
            0nat
        }
    }
}

/// Whether each of the commands `cmds` is what the planner chooses in the state that the
/// commands before it leave, and the planner does not give up there, the planner having
/// started at `start` with `budget`.
pub open spec fn planned(start: SystemView, budget: int, cmds: Seq<Cmd>) -> bool
    decreases cmds.len(),
{
    cmds.len() == 0 || (planned(start, budget, cmds.drop_last()) && cmds.last() == choice(
        run_of(start, cmds.drop_last()),
        budget - fissions(cmds.drop_last()),
    ) && gives_up(
        run_of(start, cmds.drop_last()),
        budget - fissions(cmds.drop_last()),
        trailing_waits(cmds.drop_last()) as int,
    ) is None)
}

/// The planner's runs of one length from one start with one budget are one run.
pub proof fn lemma_planned_unique(start: SystemView, budget: int, a: Seq<Cmd>, b: Seq<Cmd>)
    requires
        planned(start, budget, a),
        planned(start, budget, b),
        a.len() == b.len(),
    ensures
        a == b,
    decreases a.len(),
{
    if a.len() > 0 {
        lemma_planned_unique(start, budget, a.drop_last(), b.drop_last());
        assert(a =~= a.drop_last().push(a.last()));
        assert(b =~= b.drop_last().push(b.last()));
    } else {
        assert(a =~= b);
    }
}

/// The first commands of a run as planned are a run as planned.
pub proof fn lemma_planned_part(start: SystemView, budget: int, cmds: Seq<Cmd>, m: int)
    requires
        planned(start, budget, cmds),
        0 <= m <= cmds.len(),
    ensures
        planned(start, budget, cmds.subrange(0, m)),
    decreases cmds.len() - m,
{
    if m == cmds.len() {
        assert(cmds.subrange(0, m) =~= cmds);
    } else {
        lemma_planned_part(start, budget, cmds, m + 1);
        assert(cmds.subrange(0, m + 1).drop_last() =~= cmds.subrange(0, m));
    }
}

/// The run of the planner is one run and no other: of two runs as planned from one start
/// with one budget, the one that is not longer is the beginning of the other, and is all of
/// it where it ends with `Halt` or in a state in which the planner gives up.
pub proof fn lemma_plan_unique(start: SystemView, budget: int, a: Seq<Cmd>, b: Seq<Cmd>)
    requires
        start.inv(),
        planned(start, budget, a),
        planned(start, budget, b),
        clean(start, b),
        a.len() <= b.len(),
    ensures
        b.subrange(0, a.len() as int) == a,
        (a.len() > 0 && a.last() is Halt) || gives_up(
            run_of(start, a),
            budget - fissions(a),
            trailing_waits(a) as int,
        ) is Some ==> a == b,
{
    let n = a.len() as int;
    lemma_planned_part(start, budget, b, n);
    lemma_planned_unique(start, budget, a, b.subrange(0, n));
    if n < b.len() {
        lemma_planned_part(start, budget, b, n + 1);
        let c = b.subrange(0, n + 1);
        assert(c.drop_last() =~= a);
        crate::laws::lemma_clean_run(start, b);
        if n > 0 {
            assert(b[n - 1] == a[n - 1]);
        }
    } else {
        assert(b.subrange(0, n) =~= b);
    }
}

/// One more command that the planner chooses keeps a run as planned.
pub proof fn lemma_planned_push(start: SystemView, budget: int, cmds: Seq<Cmd>, cmd: Cmd)
    ensures
        planned(start, budget, cmds.push(cmd)) == (planned(start, budget, cmds) && cmd == choice(
            run_of(start, cmds),
            budget - fissions(cmds),
        ) && gives_up(run_of(start, cmds), budget - fissions(cmds), trailing_waits(cmds) as int)
            is None),
        trailing_waits(cmds.push(cmd)) == if cmd is Wait {
            trailing_waits(cmds) + 1
        } else {
            0
        },
        fissions(cmds.push(cmd)) == fissions(cmds) + if cmd is Fission {
            1nat
        } else {
            0nat
        },
{
    assert(cmds.push(cmd).drop_last() =~= cmds);
}

/// What has been done of the work that was to be done at `start`: a voxel that was in the
/// queue and has left it is full where the model is assembled and void where it is taken
/// apart, and every other voxel is as it was; and nothing has come into the queue.
pub open spec fn worked(start: SystemView, v: SystemView) -> bool {
    &&& forall|c: Cord| #[trigger] has_cord(v.targets, c) ==> has_cord(start.targets, c)
    &&& forall|c: Cord|
        #[trigger] v.full.contains(c) == (if has_cord(start.targets, c) && !has_cord(
            v.targets,
            c,
        ) {
            v.model_id.is_assemble()
        } else {
            start.full.contains(c)
        })
}

/// What the planner keeps between two commands: the state is in order, a bot is left, the
/// harmonics are low and stay so, and the trace has grown without a `Halt`.
pub open spec fn planning(start: SystemView, v: SystemView, waits: int) -> bool {
    &&& v.inv()
    &&& v.live()
    &&& v.r == start.r
    &&& v.model_id == start.model_id
    &&& v.harmonics == Harmonics::Low
    &&& !v.flip
    &&& extends(start.records, v.records)
    &&& no_halt_between(v.records, start.records.len() as int, v.records.len() as int)
    &&& 0 <= waits < 10
    &&& waits == trailing_waits(appended(start, v))
    &&& waits_at_end(v.records, waits)
    &&& clean(start, appended(start, v))
    &&& v == run_of(start, appended(start, v))
    &&& worked(start, v)
}

/// The first bot behind the one whose turn it is that it can take over can be taken over.
proof fn lemma_first_partner(v: SystemView, from: int)
    requires
        0 <= from <= v.bots.len(),
    ensures
        from <= first_partner(v, from),
        first_partner(v, from) < v.bots.len() ==> can_join(v, first_partner(v, from)),
    decreases v.bots.len() - from,
{
    if from < v.bots.len() && !can_join(v, from) {
        lemma_first_partner(v, from + 1);
    }
}

/// At the start of a step no fusion is agreed.
proof fn lemma_step_start(v: SystemView)
    requires
        v.inv(),
        v.bot_index == 0,
    ensures
        v.reserved.len() == 0,
{
    reveal(SystemView::core_inv);
    reveal(SystemView::reserved_inv);
    if v.reserved.len() > 0 {
        let pair = v.reserved[0];
    }
}

/// The planner can go on after a command that was carried out and left a bot.
proof fn lemma_submitted(start: SystemView, v: SystemView, w: SystemView, cmd: Cmd, was: int, now: int)
    requires
        planning(start, v, was),
        v.admits(cmd),
        !(cmd is Halt) && !(cmd is Flip),
        !v.interferes(cmd),
        cmd is Fill ==> v.model_id.is_assemble(),
        cmd is Void ==> !v.model_id.is_assemble(),
        cmd is Fill || cmd is Void ==> has_cord(v.targets, work_target(v, cmd)),
        v.records.len() < MAX_TRACE,
        w == v.step(cmd),
        w.inv(),
        0 <= now < 10,
        now == (if cmd is Wait { was + 1 } else { 0 }),
    ensures
        w.records == v.records.push(cmd),
        w.r == start.r,
        w.model_id == start.model_id,
        w.live(),
        planning(start, w, now),
        extends(start.records, w.records),
        no_halt_between(w.records, start.records.len() as int, w.records.len() as int),
{
    lemma_inv_facts(v);
    lemma_step_facts(v, cmd);
    assert(w.records.last() == cmd);
    if v.bot_index + 1 == v.bots.len() {
        crate::partition::lemma_ids_partition(w);
    }
    lemma_run_push(start, appended(start, v), cmd);
    lemma_planned_push(start, 0, appended(start, v), cmd);
    assert(appended(start, w) =~= appended(start, v).push(cmd));
    lemma_step_work(v, cmd);
    assert(worked(start, w)) by {
        let t = work_target(v, cmd);
        assert forall|c: Cord| #[trigger] has_cord(w.targets, c) implies has_cord(
            start.targets,
            c,
        ) by {
            assert(has_cord(v.targets, c));
        }
        assert forall|c: Cord|
            #[trigger] w.full.contains(c) == (if has_cord(start.targets, c) && !has_cord(
                w.targets,
                c,
            ) {
                w.model_id.is_assemble()
            } else {
                start.full.contains(c)
            }) by {
            assert(v.full.contains(c) == (if has_cord(start.targets, c) && !has_cord(v.targets, c) {
                v.model_id.is_assemble()
            } else {
                start.full.contains(c)
            }));
            if cmd is Fill || cmd is Void {
                assert(has_cord(w.targets, c) <==> (c != t && has_cord(v.targets, c)));
                assert(has_cord(v.targets, t) ==> has_cord(start.targets, t));
            }
        }
    }
    assert(w.records.subrange(0, start.records.len() as int) =~= start.records) by {
        assert(v.records.subrange(0, start.records.len() as int) == start.records);
    }
    assert forall|i: int| w.records.len() - now <= i < w.records.len() implies #[trigger] w.records[i] is Wait by {
        if i < v.records.len() {
            assert(w.records[i] == v.records[i]);
        }
    }
}

/// Whether the planner may hand `cmd` to the simulator: the state admits it, it does not
/// interfere, it neither halts nor flips, and where it fills or voids a voxel, the voxel is
/// in the queue and the work is of the kind that the model asks for.
pub open spec fn fit(v: SystemView, cmd: Cmd) -> bool {
    &&& v.admits(cmd)
    &&& !v.interferes(cmd)
    &&& !(cmd is Halt) && !(cmd is Flip)
    &&& cmd is Fill ==> v.model_id.is_assemble()
    &&& cmd is Void ==> !v.model_id.is_assemble()
    &&& cmd is Fill || cmd is Void ==> has_cord(v.targets, work_target(v, cmd))
}

/// Hands `cmd` to the simulator, unless it is the tenth wait in a row.
fn submit(
    sys: &mut System,
    cmd: Cmd,
    wait_cont: &mut usize,
    Ghost(start): Ghost<SystemView>,
    Ghost(budget): Ghost<int>,
) -> (res: Result<(), PlanError>)
    requires
        old(sys).wf(),
        planning(start, old(sys)@, *old(wait_cont) as int),
        planned(start, budget, appended(start, old(sys)@)),
        cmd == choice(old(sys)@, budget - fissions(appended(start, old(sys)@))),
        fit(old(sys)@, cmd),
        old(sys).records.len() < MAX_TRACE,
        !(old(sys)@.targets.len() == 0 && old(sys)@.bots.len() == 1 && cmd is Wait),
    ensures
        final(sys).wf(),
        final(sys)@.r == start.r,
        final(sys)@.model_id == start.model_id,
        planned(start, budget, appended(start, final(sys)@)),
        res is Ok ==> planning(start, final(sys)@, *final(wait_cont) as int) && final(sys)@
            == old(sys)@.step(cmd) && appended(start, final(sys)@) == appended(
            start,
            old(sys)@,
        ).push(cmd),
        res is Err ==> res == Err::<(), PlanError>(PlanError::Stall) && cmd is Wait && *final(sys)
            == *old(sys) && waits_at_end(final(sys)@.records, 9) && trailing_waits(
            appended(start, final(sys)@),
        ) == 9,
{
    let ghost v = sys@;
    proof {
        lemma_inv_facts(v);
    }
    match cmd {
        Cmd::Wait => {
            *wait_cont = *wait_cont + 1;
            if *wait_cont == 10 {
                return Err(PlanError::Stall);
            }
        },
        _ => {
            *wait_cont = 0;
        },
    }
    let ghost was = *old(wait_cont) as int;
    let _ = sys.execute_cmd(cmd);
    proof {
        lemma_submitted(start, v, sys@, cmd, was, *wait_cont as int);
        lemma_planned_push(start, budget, appended(start, v), cmd);
        assert(appended(start, sys@) =~= appended(start, v).push(cmd));
    }
    Ok(())
}

impl Many {
    /// The number of bots that the planner may still split off, and one more.
    pub closed spec fn budget(&self) -> usize {
        self.bots
    }

    /// A planner that works with `bots` bots.
    pub fn new(bots: usize) -> (m: Many)
        ensures
            m.budget() == bots,
    {
        Many { bots }
    }

    /// What the bot whose turn it is does while targets are left.
    fn build_cmd(&mut self, sys: &mut System) -> (cmd: Cmd)
        requires
            old(sys).wf(),
            old(sys)@.live(),
            old(sys)@.reserved.len() == 0,
        ensures
            *final(sys) == *old(sys),
            cmd == build_choice(old(sys)@, old(self).budget() as int),
            fit(old(sys)@, cmd),
            !(cmd is FusionP),
            final(self).budget() == old(self).budget() - if cmd is Fission {
                1int
            } else {
                0int
            },
    {
        let ghost v = sys@;
        proof {
            lemma_inv_facts(v);
            assert(lookup(v.reserved, v.cur().pos) is None);
            crate::queries::lemma_first_free_side(v, 6);
        }
        let targets = sys.free_priority_targets();
        if self.bots > 1 {
            match sys.can_current_bot_fisson() {
                Some(cmd) => {
                    self.bots = self.bots - 1;
                    proof {
                        let d = face_diffs()[first_free_side(v, 6)];
                        assert(face_diffs().contains(d));
                        crate::geometry::lemma_face_diffs(d);
                    }
                    return cmd;
                },
                None => {},
            }
        }
        let cmd = sys.move_to_target_and_fill_or_void(&targets);
        proof {
            if cmd is Fill || cmd is Void {
                crate::laws::lemma_work_clear(v, cmd);
            }
        }
        cmd
    }

    /// What the bot whose turn it is does when no target is left and it is not alone.
    fn gather_cmd(sys: &System) -> (cmd: Cmd)
        requires
            sys.wf(),
            sys@.live(),
            sys@.bots.len() != 1,
        ensures
            cmd == gather_choice(sys@),
            fit(sys@, cmd),
            !(cmd is Fission),
    {
        let ghost v = sys@;
        proof {
            lemma_inv_facts(v);
        }
        let origin = Cord::new(0, 0, 0);
        let pos = sys.current_bot().pos;
        match sys.is_current_bot_reserved_as_fusion_secondary() {
            Some(primary_cord) => {
                proof {
                    lemma_reserved_pair(v, pos);
                }
                return Cmd::FusionS(Near(primary_cord - pos));
            },
            None => {},
        }
        match sys.find_current_bot_fusion_opponent() {
            Some(second) => {
                proof {
                    lemma_first_partner(v, v.bot_index + 1);
                    let j = first_partner(v, v.bot_index + 1);
                    assert(v.bots[j].pos == second.pos);
                    assert(v.bots[j].pos.in_range(v.r));
                }
                return Cmd::FusionP(Near(second.pos - pos));
            },
            None => {},
        }
        if pos == origin {
            Cmd::Wait
        } else if sys.is_interfared(origin) {
            let mut origin_set: Vec<Cord> = Vec::new();
            origin_set.push(origin);
            assert(origin_set@ =~= seq![origin]);
            match sys.move_to_near(pos, &origin_set) {
                Ok(m) => {
                    proof {
                        let units = choose|units: Seq<Cmd>| #[trigger]
                            route_near(v, pos, origin_set@, units) && m.move_cmds.cmds@
                                == crate::moves::compressed(units) && m.final_pos
                                == crate::search::lands(pos, units);
                        crate::search::lemma_walk_units(v, pos, units);
                        crate::moves::lemma_compressed_valid(units);
                        assert(crate::moves::compressed(Seq::<Cmd>::empty()).len() == 0);
                        crate::search::lemma_walk_reach(v, pos, units);
                        assert(v.work_in_reach(origin_set@));
                    }
                    if m.move_cmds.cmds.len() == 0 {
                        Cmd::Wait
                    } else {
                        m.move_cmds.cmds[0]
                    }
                },
                Err(_) => Cmd::Wait,
            }
        } else {
            sys.move_to_first_or_wait_cmd(pos, origin)
        }
    }

    /// Plans and carries out commands until the system halts or the plan is given up. While
    /// targets are left, each bot in its turn splits, goes to a target or works on one; when
    /// none is left, the bots come together, fuse, and the last one halts at the origin.
    pub fn solve(&mut self, sys: &mut System) -> (res: Result<(), PlanError>)
        requires
            old(sys).wf(),
            old(sys)@.live(),
            old(sys)@.harmonics == Harmonics::Low,
            !old(sys)@.flip,
            old(sys)@.reserved.len() == 0,
        ensures
            final(sys).wf(),
            final(sys)@.r == old(sys)@.r,
            final(sys)@.model_id == old(sys)@.model_id,
            final(sys)@.harmonics == Harmonics::Low,
            !final(sys)@.flip,
            extends(old(sys)@.records, final(sys)@.records),
            clean(old(sys)@, appended(old(sys)@, final(sys)@)),
            final(sys)@ == run_of(old(sys)@, appended(old(sys)@, final(sys)@)),
            planned(old(sys)@, old(self).budget() as int, appended(old(sys)@, final(sys)@)),
            final(self).budget() == old(self).budget() - fissions(
                appended(old(sys)@, final(sys)@),
            ),
            worked(old(sys)@, final(sys)@),
            no_halt_between(
                final(sys)@.records,
                old(sys)@.records.len() as int,
                final(sys)@.records.len() - 1,
            ),
            res is Ok ==> {
                &&& !final(sys)@.live()
                &&& final(sys)@.targets.len() == 0
                &&& final(sys)@.records.len() > old(sys)@.records.len()
                &&& final(sys)@.records.last() is Halt
            },
            res is Err ==> !(final(sys)@.records.len() > old(sys)@.records.len() && final(sys)@.records.last() is Halt),
            res is Ok <==> final(sys)@.records.len() > old(sys)@.records.len() && final(sys)@.records.last() is Halt,
            res matches Err(e) ==> gives_up(
                final(sys)@,
                final(self).budget() as int,
                trailing_waits(appended(old(sys)@, final(sys)@)) as int,
            ) == Some(e),
            res == Err::<(), PlanError>(PlanError::Stall) ==> waits_at_end(final(sys)@.records, 9)
                && choice(final(sys)@, final(self).budget() as int) is Wait,
            res == Err::<(), PlanError>(PlanError::TraceFull) ==> final(sys)@.records.len()
                == MAX_TRACE,
            res == Err::<(), PlanError>(PlanError::NoWayHome) ==> final(sys)@.targets.len() == 0
                && final(sys)@.bots.len() == 1 && final(sys)@.cur().pos != origin() && !reachable(
                final(sys)@,
                final(sys)@.cur().pos,
                origin(),
            ) && choice(final(sys)@, final(self).budget() as int) is Wait,
    {
        let ghost start = sys@;
        let ghost budget = self.bots as int;
        let origin = Cord::new(0, 0, 0);
        let mut wait_cont: usize = 0;
        assert(start.records.subrange(0, start.records.len() as int) =~= start.records);
        assert(appended(start, start) =~= Seq::<Cmd>::empty());
        while !sys.priority_targets.is_empty()
            invariant
                start == old(sys)@,
                budget == old(self).budget(),
                sys.wf(),
                planning(start, sys@, wait_cont as int),
                planned(start, budget, appended(start, sys@)),
                self.budget() == budget - fissions(appended(start, sys@)),
                sys@.reserved.len() == 0,
            decreases MAX_TRACE - sys.records.len(),
        {
            proof {
                lemma_inv_facts(sys@);
            }
            if sys.records.len() >= MAX_TRACE {
                return Err(PlanError::TraceFull);
            }
            let ghost v = sys@;
            let cmd = self.build_cmd(sys);
            match submit(sys, cmd, &mut wait_cont, Ghost(start), Ghost(budget)) {
                Ok(_) => {
                    proof {
                        lemma_step_facts(v, cmd);
                        lemma_planned_push(start, budget, appended(start, v), cmd);
                    }
                },
                Err(e) => {
                    proof {
                        assert(!(cmd is Fission));
                    }
                    return Err(e);
                },
            }
        }
        loop
            invariant
                start == old(sys)@,
                budget == old(self).budget(),
                origin == (Cord { x: 0, y: 0, z: 0 }),
                sys.wf(),
                planning(start, sys@, wait_cont as int),
                planned(start, budget, appended(start, sys@)),
                self.budget() == budget - fissions(appended(start, sys@)),
                sys@.targets.len() == 0,
            decreases MAX_TRACE - sys.records.len(),
        {
            proof {
                lemma_inv_facts(sys@);
            }
            if sys.records.len() >= MAX_TRACE {
                return Err(PlanError::TraceFull);
            }
            let ghost v = sys@;
            let pos = sys.current_bot().pos;
            let cmd = if sys.bots.len() == 1 {
                proof {
                    lemma_step_start(v);
                }
                if pos == origin {
                    let _ = sys.execute_cmd(Cmd::Halt);
                    proof {
                        lemma_halted(start, budget, v, sys@);
                    }
                    return Ok(());
                }
                let cmd = sys.move_to_first_or_wait_cmd(pos, origin);
                match cmd {
                    Cmd::Wait => {
                        proof {
                            lemma_no_way(v, pos);
                        }
                        return Err(PlanError::NoWayHome);
                    },
                    _ => {},
                }
                assert(!(cmd is Fission));
                cmd
            } else {
                Many::gather_cmd(sys)
            };
            match submit(sys, cmd, &mut wait_cont, Ghost(start), Ghost(budget)) {
                Ok(_) => {
                    proof {
                        lemma_step_facts(v, cmd);
                        lemma_planned_push(start, budget, appended(start, v), cmd);
                    }
                },
                Err(e) => {
                    return Err(e);
                },
            }
        }
    }
}

/// The planner has gone on to `w` by a `Halt` that it has chosen at `v`.
proof fn lemma_halted(start: SystemView, budget: int, v: SystemView, w: SystemView)
    requires
        exists|waits: int| planning(start, v, waits),
        planned(start, budget, appended(start, v)),
        v.targets.len() == 0,
        v.bots.len() == 1,
        v.cur().pos == origin(),
        v.admits(Cmd::Halt),
        v.records.len() < MAX_TRACE,
        w == v.step(Cmd::Halt),
    ensures
        extends(start.records, w.records),
        no_halt_between(w.records, start.records.len() as int, w.records.len() - 1),
        clean(start, appended(start, w)),
        w == run_of(start, appended(start, w)),
        planned(start, budget, appended(start, w)),
        fissions(appended(start, w)) == fissions(appended(start, v)),
        worked(start, w),
        !w.live(),
        w.targets.len() == 0,
        w.records.len() > start.records.len(),
        w.records.last() is Halt,
        w.r == start.r,
        w.model_id == start.model_id,
        w.harmonics == Harmonics::Low,
        !w.flip,
{
    lemma_inv_facts(v);
    lemma_step_facts(v, Cmd::Halt);
    assert(w.records.subrange(0, start.records.len() as int) =~= start.records) by {
        assert(v.records.subrange(0, start.records.len() as int) == start.records);
    }
    lemma_run_push(start, appended(start, v), Cmd::Halt);
    lemma_planned_push(start, budget, appended(start, v), Cmd::Halt);
    assert(appended(start, w) =~= appended(start, v).push(Cmd::Halt));
    lemma_step_work(v, Cmd::Halt);
    assert forall|i: int|
        start.records.len() <= i < w.records.len() - 1 && 0 <= i
            < w.records.len() implies !(#[trigger] w.records[i] is Halt) by {
        assert(w.records[i] == v.records[i]);
    }
}

/// A bot away from the origin for which the way to the origin begins with a wait has no
/// way there.
proof fn lemma_no_way(v: SystemView, pos: Cord)
    requires
        v.inv(),
        pos.in_range(v.r),
        pos != origin(),
        heads_to(v, pos, origin(), Cmd::Wait),
    ensures
        !reachable(v, pos, origin()),
{
    lemma_inv_facts(v);
    if reachable(v, pos, origin()) {
        let units = choose|units: Seq<Cmd>| #[trigger]
            route(v, pos, origin(), units) && Cmd::Wait == first_or_wait(units);
        crate::search::lemma_walk_units(v, pos, units);
        crate::moves::lemma_compressed_valid(units);
        assert(units.len() == 0);
        assert(crate::moves::displacement(units) == crate::moves::Shift::zero());
    }
}

} // verus!
