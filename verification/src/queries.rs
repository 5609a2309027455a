use crate::bot::{Bot, Cmd};
use crate::geometry::{Cord, CordDiff, face_diffs, lemma_face_diffs, Near, near_diffs};
use crate::laws::lemma_inv_facts;
use crate::model::ModelId;
use crate::moves::{compressed, is_move};
use crate::search::{
    first_near, first_of, free_reach, has_near, heads_to, lands, near_goal, route_near, scan_from,
    way_found, way_to,
};
use crate::state::{lookup, SystemView};
use crate::system::{CmdResult, MAX_TRACE, System};
use vstd::prelude::*;

verus! {

/// The place in the list of unit steps of the first one that leads from the bot whose turn
/// it is to a voxel that is not blocked; 6 where none does.
pub open spec fn first_free_side(v: SystemView, upto: int) -> int
    decreases upto,
{
    if upto <= 0 {
        6
    } else {
        let before = first_free_side(v, upto - 1);
        if before < 6 {
            before
        } else if !v.blocked(v.cur().pos.offset(face_diffs()[upto - 1])) {
            upto - 1
        } else {
            6
        }
    }
}

/// Whether the bot at place `j` can be taken over by the bot whose turn it is: no fusion is
/// agreed for it yet, and it stands near.
pub open spec fn can_join(v: SystemView, j: int) -> bool {
    lookup(v.reserved, v.bots[j].pos) is None && v.bots[j].pos.diff_from(v.cur().pos).near()
}

/// The place of the first bot behind the one whose turn it is that it can take over, seen
/// from place `from`; the number of bots where there is none.
pub open spec fn first_partner(v: SystemView, from: int) -> int
    decreases v.bots.len() - from,
{
    if from >= v.bots.len() {
        v.bots.len() as int
    } else if can_join(v, from) {
        from
    } else {
        first_partner(v, from + 1)
    }
}

impl SystemView {
    /// Whether the bot whose turn it is can reach, over free voxels, a voxel that has one
    /// of `targets` near it.
    pub open spec fn work_in_reach(self, targets: Seq<Cord>) -> bool {
        exists|c: Cord, n: nat| #[trigger]
            free_reach(self, self.cur().pos, c, n) && near_goal(self, targets, c)
    }

    /// Whether `cmd` is what the bot whose turn it is does next for `targets`: the first
    /// command of the compressed moves of a shortest way over free voxels to a voxel with
    /// one of them near it; on such a voxel, the work on the first target near it; and where
    /// no such voxel can be reached, what it does next on its way to the origin.
    pub open spec fn heads_to_work(self, targets: Seq<Cord>, cmd: Cmd) -> bool {
        if self.work_in_reach(targets) {
            exists|units: Seq<Cmd>| #[trigger]
                route_near(self, self.cur().pos, targets, units) && cmd == (if units.len() > 0 {
                    compressed(units)[0]
                } else {
                    self.work_cmd(targets)
                })
        } else {
            heads_to(self, self.cur().pos, Cord { x: 0, y: 0, z: 0 }, cmd)
        }
    }

    /// What the bot whose turn it is does next for `targets`: the first command of the way
    /// that a search finds to a voxel with one of them near it; on such a voxel, the work on
    /// the first target near it; and where the search finds no such voxel, the first command
    /// of the way that a search finds to the origin, or `Wait`.
    pub open spec fn target_cmd(self, targets: Seq<Cord>) -> Cmd {
        let pos = self.cur().pos;
        let search = scan_from(self, pos, has_near(self, targets));
        if search.1 is Some {
            if way_found(search).len() > 0 {
                way_found(search)[0]
            } else {
                self.work_cmd(targets)
            }
        } else {
            first_of(way_to(self, pos, Cord { x: 0, y: 0, z: 0 }))
        }
    }

    /// The filling, or the voiding where the model is taken apart, of the first of
    /// `targets` that is near the bot whose turn it is.
    pub open spec fn work_cmd(self, targets: Seq<Cord>) -> Cmd {
        let nd = Near(near_diffs()[first_near(self, targets, self.cur().pos, 18)]);
        if self.model_id.is_assemble() {
            Cmd::Fill(nd)
        } else {
            Cmd::Void(nd)
        }
    }
}

impl System {
    /// The place that the latest fusion agreed for the place `key` gives.
    pub fn reserved_for(&self, key: Cord) -> (res: Option<Cord>)
        ensures
            res == lookup(self.reserved_fusion@, key),
    {
        let ghost pairs = self.reserved_fusion@;
        let mut i: usize = self.reserved_fusion.len();
        assert(pairs.subrange(0, i as int) =~= pairs);
        while i > 0
            invariant
                i <= pairs.len(),
                pairs == self.reserved_fusion@,
                lookup(pairs, key) == lookup(pairs.subrange(0, i as int), key),
            decreases i,
        {
            let pair = self.reserved_fusion[i - 1];
            if pair.0 == key {
                return Some(pair.1);
            }
            assert(pairs.subrange(0, i as int).drop_last() =~= pairs.subrange(0, i - 1));
            i = i - 1;
        }
        None
    }

    /// The first bot behind the one whose turn it is that stands near it and for which no
    /// fusion is agreed yet.
    pub fn find_current_bot_fusion_opponent(&self) -> (res: Option<&Bot>)
        requires
            self.wf(),
            self@.live(),
        ensures
            first_partner(self@, self@.bot_index + 1) < self@.bots.len() ==> (res matches Some(b)
                && *b == self.bots[first_partner(self@, self@.bot_index + 1)]),
            first_partner(self@, self@.bot_index + 1) >= self@.bots.len() ==> res is None,
    {
        let ghost v = self@;
        proof {
            lemma_inv_facts(v);
        }
        let pos = self.bots[self.bot_index].pos;
        let mut j: usize = self.bot_index + 1;
        while j < self.bots.len()
            invariant
                self.wf(),
                v == self@,
                v.live(),
                pos == v.cur().pos,
                self.bot_index < j <= self.bots.len(),
                first_partner(v, v.bot_index + 1) == first_partner(v, j as int),
            decreases self.bots.len() - j,
        {
            proof {
                lemma_inv_facts(v);
            }
            let b = &self.bots[j];
            assert(b.pos == v.bots[j as int].pos);
            let free = self.reserved_for(b.pos).is_none();
            if free && (b.pos - pos).is_near() {
                return Some(b);
            }
            j = j + 1;
        }
        None
    }

    /// The place of the bot that takes over the bot whose turn it is, where a fusion is
    /// agreed for it.
    pub fn is_current_bot_reserved_as_fusion_secondary(&self) -> (res: Option<Cord>)
        requires
            self.wf(),
            self@.live(),
        ensures
            res == lookup(self@.reserved, self@.cur().pos),
    {
        proof {
            lemma_inv_facts(self@);
        }
        self.reserved_for(self.bots[self.bot_index].pos)
    }

    /// The fission by which the bot whose turn it is hands half of its seeds to a bot on the
    /// first free voxel at one of its faces; nothing where it has no seed or no such voxel.
    pub fn can_current_bot_fisson(&self) -> (res: Option<Cmd>)
        requires
            self.wf(),
            self@.live(),
        ensures
            res == (if self@.cur().seeds.len() == 0 || first_free_side(self@, 6) >= 6 {
                None
            } else {
                Some(
                    Cmd::Fission(
                        Near(face_diffs()[first_free_side(self@, 6)]),
                        (self@.cur().seeds.len() / 2) as usize,
                    ),
                )
            }),
    {
        let ghost v = self@;
        proof {
            lemma_inv_facts(v);
        }
        if self.bots[self.bot_index].seeds.len() == 0 {
            return None;
        }
        let pos = self.bots[self.bot_index].pos;
        let diffs = CordDiff::gen_all_diff();
        let mut k: usize = 0;
        while k < diffs.len()
            invariant
                self.wf(),
                v == self@,
                v.live(),
                pos == v.cur().pos,
                pos.in_range(v.r),
                v.cur().seeds.len() == self.bots[self.bot_index as int].seeds.len(),
                v.cur().seeds.len() > 0,
                diffs@ == face_diffs(),
                diffs@.len() == 6,
                k <= 6,
                first_free_side(v, k as int) == 6,
            decreases 6 - k,
        {
            let d = diffs[k];
            proof {
                lemma_inv_facts(v);
                assert(face_diffs().contains(d));
                lemma_face_diffs(d);
            }
            let c = pos + d;
            if !self.is_blocked(c) {
                proof {
                    assert(first_free_side(v, k + 1) == k);
                    lemma_first_free_stays(v, k + 1, 6);
                    assert(c.diff_from(pos) == d);
                }
                return Some(Cmd::Fission(Near(c - pos), self.bots[self.bot_index].seeds.len() / 2));
            }
            k = k + 1;
        }
        proof {
            lemma_face_diffs(face_diffs()[0]);
        }
        None
    }

    /// What the bot whose turn it is does next for `targets`: the first command of a shortest
    /// way to the nearest voxel from which one of them can be worked; on such a voxel, the
    /// filling or the voiding of the first target near it; and where no such voxel can be
    /// reached, the first command of a shortest way to the origin, or `Wait`.
    pub fn move_to_target_and_fill_or_void(&mut self, targets: &Vec<Cord>) -> (cmd: Cmd)
        requires
            old(self).wf(),
            old(self)@.live(),
        ensures
            *final(self) == *old(self),
            cmd.well_formed(),
            cmd is Wait || cmd is Fill || cmd is Void || is_move(cmd),
            !crate::clear::move_blocked(old(self)@, old(self)@.cur().pos, cmd),
            cmd is Fill ==> old(self)@.model_id.is_assemble(),
            cmd is Void ==> !old(self)@.model_id.is_assemble(),
            cmd is Fill || cmd is Void ==> targets@.contains(
                crate::laws::work_target(old(self)@, cmd),
            ) && crate::laws::work_target(old(self)@, cmd).in_range(old(self)@.r),
            cmd == old(self)@.target_cmd(targets@),
            old(self)@.heads_to_work(targets@, cmd),
    {
        let ghost v = self@;
        proof {
            lemma_inv_facts(v);
        }
        let origin = Cord::new(0, 0, 0);
        let pos = self.bots[self.bot_index].pos;
        match self.move_to_near(pos, targets) {
            Ok(m) => {
                proof {
                    assert(crate::search::leads_near(v, pos, targets@, m));
                    let units = choose|units: Seq<Cmd>| #[trigger]
                        route_near(v, pos, targets@, units) && m.move_cmds.cmds@ == compressed(
                            units,
                        ) && m.final_pos == lands(pos, units);
                    crate::search::lemma_walk_reach(v, pos, units);
                    crate::search::lemma_walk_units(v, pos, units);
                    crate::moves::lemma_compressed_valid(units);
                    assert(v.work_in_reach(targets@));
                    if units.len() == 0 {
                        assert(crate::moves::displacement(units) == crate::moves::Shift::zero());
                        assert(m.final_pos == pos);
                    }
                }
                if m.move_cmds.cmds.len() > 0 {
                    m.move_cmds.cmds[0]
                } else {
                    match self.model_id {
                        ModelId::Assemble(_) => Cmd::Fill(m.target_nd),
                        ModelId::Disassemble(_) => Cmd::Void(m.target_nd),
                    }
                }
            },
            Err(_) => self.move_to_first_or_wait_cmd(pos, origin),
        }
    }

    /// Carries out a command that does not interfere and is not `Halt`.
    pub fn assert_execute_cmd(&mut self, cmd: Cmd)
        requires
            old(self).wf(),
            old(self)@.live(),
            old(self)@.admits(cmd),
            old(self).records.len() < MAX_TRACE,
            old(self)@.outcome(cmd) == CmdResult::Continue,
        ensures
            final(self).wf(),
            final(self)@ == old(self)@.step(cmd),
    {
        let _ = self.execute_cmd(cmd);
    }
}

/// The first free side, where there is one, is free, and the sides before it are blocked.
pub proof fn lemma_first_free_side(v: SystemView, upto: int)
    requires
        0 <= upto,
    ensures
        0 <= first_free_side(v, upto),
        first_free_side(v, upto) < 6 ==> first_free_side(v, upto) < upto && !v.blocked(
            v.cur().pos.offset(face_diffs()[first_free_side(v, upto)]),
        ),
    decreases upto,
{
    if upto > 0 {
        lemma_first_free_side(v, upto - 1);
    }
}

proof fn lemma_first_free_stays(v: SystemView, k: int, upto: int)
    requires
        0 <= k <= upto,
        first_free_side(v, k) < 6,
    ensures
        first_free_side(v, upto) == first_free_side(v, k),
    decreases upto - k,
{
    if k < upto {
        lemma_first_free_stays(v, k, upto - 1);
    }
}

} // verus!
