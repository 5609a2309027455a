use crate::bot::{BotId, BotView, Cmd, fused_seeds, initial_seeds};
use crate::geometry::{Cord, CordDiff};
use crate::grid::MAX_SIDE;
use crate::ids::{due, held};
use crate::model::{Model, ModelId};
use crate::system::{CmdResult, Harmonics, MAX_COST, MAX_TRACE};
use crate::target::{cords_distinct, PriorityTarget, ranks, targets_sorted, without};
use vstd::prelude::*;

verus! {

/// What a system is in contracts.
#[verifier::ext_equal]
pub struct SystemView {
    pub r: int,
    pub model_id: ModelId,
    pub energy: int,
    pub harmonics: Harmonics,
    pub full: Set<Cord>,
    pub targets: Seq<PriorityTarget>,
    pub bots: Seq<BotView>,
    pub bot_index: int,
    pub marks: Set<Cord>,
    pub flip: bool,
    pub new_bots: Seq<BotView>,
    pub removed: Seq<BotId>,
    pub reserved: Seq<(Cord, Cord)>,
    pub records: Seq<Cmd>,
}

/// The cell `k` steps from `start` in the direction of the straight displacement `d`.
pub open spec fn along(start: Cord, d: CordDiff, k: int) -> Cord {
    if d.dx > 0 {
        Cord { x: (start.x + k) as i32, y: start.y, z: start.z }
    } else if d.dx < 0 {
        Cord { x: (start.x - k) as i32, y: start.y, z: start.z }
    } else if d.dy > 0 {
        Cord { x: start.x, y: (start.y + k) as i32, z: start.z }
    } else if d.dy < 0 {
        Cord { x: start.x, y: (start.y - k) as i32, z: start.z }
    } else if d.dz > 0 {
        Cord { x: start.x, y: start.y, z: (start.z + k) as i32 }
    } else {
        Cord { x: start.x, y: start.y, z: (start.z - k) as i32 }
    }
}

/// The box of which `c1` and `c2` are corners.
pub open spec fn span(c1: Cord, c2: Cord) -> Set<Cord> {
    Set::new(
        |c: Cord|
            {
                &&& (c1.x <= c.x <= c2.x || c2.x <= c.x <= c1.x)
                &&& (c1.y <= c.y <= c2.y || c2.y <= c.y <= c1.y)
                &&& (c1.z <= c.z <= c2.z || c2.z <= c.z <= c1.z)
            },
    )
}

/// The place that the latest pair for `key` gives.
pub open spec fn lookup(pairs: Seq<(Cord, Cord)>, key: Cord) -> Option<Cord>
    decreases pairs.len(),
{
    if pairs.len() == 0 {
        None
    } else if pairs.last().0 == key {
        Some(pairs.last().1)
    } else {
        lookup(pairs.drop_last(), key)
    }
}

/// Whether a bot of the list stands at `pos`.
pub open spec fn has_bot_at(bots: Seq<BotView>, pos: Cord) -> bool {
    exists|i: int| 0 <= i < bots.len() && bots[i].pos == pos
}

/// The place in the list of the first bot that stands at `pos`.
pub open spec fn first_at(bots: Seq<BotView>, pos: Cord) -> int {
    choose|i: int|
        0 <= i < bots.len() && bots[i].pos == pos && forall|j: int|
            0 <= j < i ==> bots[j].pos != pos
}

/// Whether a bot that is to be removed stands at `pos`.
pub open spec fn leaves_from(bots: Seq<BotView>, removed: Seq<BotId>, pos: Cord) -> bool {
    exists|j: int| 0 <= j < bots.len() && bots[j].pos == pos && removed.contains(bots[j].bid)
}

/// The bots that are not to be removed.
pub open spec fn survivors(bots: Seq<BotView>, removed: Seq<BotId>) -> Seq<BotView> {
    bots.filter(|b: BotView| !removed.contains(b.bid))
}

/// Where a bot `bid` joins a list of bots: behind the last bot whose identity is not larger.
pub open spec fn place_of(bots: Seq<BotView>, bid: BotId) -> int
    decreases bots.len(),
{
    if bots.len() == 0 {
        0
    } else if bots.last().bid <= bid {
        bots.len() as int
    } else {
        place_of(bots.drop_last(), bid)
    }
}

/// The list of bots after the newcomers have joined it, one after the other.
pub open spec fn joined_in(bots: Seq<BotView>, newcomers: Seq<BotView>) -> Seq<BotView>
    decreases newcomers.len(),
{
    if newcomers.len() == 0 {
        bots
    } else {
        let head = joined_in(bots, newcomers.drop_last());
        head.insert(place_of(head, newcomers.last().bid), newcomers.last())
    }
}

/// The places where the bots of a list stand, as far as they lie in a grid of side `r`.
pub open spec fn places(bots: Seq<BotView>, r: int) -> Set<Cord> {
    Set::new(|c: Cord| c.in_range(r) && has_bot_at(bots, c))
}

/// Whether `v` is the state in which work on `model` starts: one bot at the origin with all
/// the seeds, nothing claimed but its place, nothing recorded, no energy spent, the matrix
/// void for a model that is to be assembled and the shape itself for one that is to be taken
/// apart, and the targets ranked by their distance from the ground.
pub open spec fn starts(model: &Model, v: SystemView) -> bool {
    &&& v.r == model.r
    &&& v.model_id == model.id
    &&& v.energy == 0
    &&& v.harmonics == Harmonics::Low
    &&& forall|c: Cord|
        #[trigger] v.full.contains(c) <==> (!model.id.is_assemble() && model.is_target(c))
    &&& ranks(model, v.targets)
    &&& v.bots == seq![BotView { bid: 1, pos: Cord { x: 0, y: 0, z: 0 }, seeds: initial_seeds() }]
    &&& v.bot_index == 0
    &&& v.marks == set![Cord { x: 0, y: 0, z: 0 }]
    &&& !v.flip
    &&& v.new_bots.len() == 0
    &&& v.removed.len() == 0
    &&& v.reserved.len() == 0
    &&& v.records.len() == 0
}

impl SystemView {
    /// The bot whose turn it is.
    pub open spec fn cur(self) -> BotView {
        self.bots[self.bot_index]
    }

    /// A voxel that no command may enter: one outside the grid, a full one, or one that a
    /// command of this step has claimed.
    pub open spec fn blocked(self, c: Cord) -> bool {
        !c.in_range(self.r) || self.full.contains(c) || self.marks.contains(c)
    }

    /// A voxel that no command may touch: one outside the grid, or one that a command of
    /// this step has claimed.
    pub open spec fn claimed(self, c: Cord) -> bool {
        !c.in_range(self.r) || self.marks.contains(c)
    }

    /// Whether one of the cells of the straight move `d` from `start`, `start` itself left
    /// out, is blocked.
    pub open spec fn walk_blocked(self, start: Cord, d: CordDiff) -> bool {
        exists|k: int| 1 <= k <= d.spec_clen() && self.blocked(#[trigger] along(start, d, k))
    }

    /// Whether the command of the bot whose turn it is collides with the grid's border, with
    /// a full voxel or with what this step has claimed.
    pub open spec fn interferes(self, cmd: Cmd) -> bool {
        let pos = self.cur().pos;
        match cmd {
            Cmd::SMove(lld) => self.walk_blocked(pos, lld.0),
            Cmd::LMove(sld1, sld2) => self.walk_blocked(pos, sld1.0) || self.walk_blocked(
                pos.offset(sld1.0),
                sld2.0,
            ),
            Cmd::Fission(nd, _) => self.blocked(pos.offset(nd.0)),
            Cmd::Fill(nd) => self.blocked(pos.offset(nd.0)),
            Cmd::Void(nd) => self.claimed(pos.offset(nd.0)),
            _ => false,
        }
    }

    /// What a caller owes for a command: its displacements are of their class; a bot that
    /// is to be taken over in this step answers with `FusionS` and nothing else, and no bot
    /// is taken over twice; and where the command is `Halt`, `Fission`, `FusionP` or
    /// `FusionS`, the state is one in which it can be carried out.
    pub open spec fn admits(self, cmd: Cmd) -> bool {
        let pos = self.cur().pos;
        &&& cmd.well_formed()
        &&& (lookup(self.reserved, pos) is Some ==> cmd is FusionS)
        &&& match cmd {
            Cmd::Halt => self.bots.len() == 1 && pos == (Cord { x: 0, y: 0, z: 0 })
                && self.harmonics == Harmonics::Low,
            Cmd::Fission(_, m) => m < self.cur().seeds.len(),
            Cmd::FusionP(nd) => has_bot_at(self.bots, pos.offset(nd.0)) && lookup(
                self.reserved,
                pos.offset(nd.0),
            ) is None,
            Cmd::FusionS(nd) => lookup(self.reserved, pos) == Some(pos.offset(nd.0))
                && has_bot_at(self.bots, pos.offset(nd.0)),
            _ => true,
        }
    }

    /// The state with the bot whose turn it is replaced by `bot`.
    pub open spec fn with_cur(self, bot: BotView) -> SystemView {
        SystemView { bots: self.bots.update(self.bot_index, bot), ..self }
    }

    /// The state after the bot whose turn it is has carried out `cmd`, which does not
    /// interfere: before the command is recorded and the turn passes on.
    pub open spec fn apply(self, cmd: Cmd) -> SystemView {
        let bot = self.cur();
        let pos = bot.pos;
        match cmd {
            Cmd::Halt | Cmd::Wait | Cmd::FusionS(_) => self,
            Cmd::Flip => SystemView { flip: !self.flip, ..self },
            Cmd::SMove(lld) => {
                let to = pos.offset(lld.0);
                SystemView {
                    energy: self.energy + 2 * lld.0.spec_mlen(),
                    marks: self.marks.union(span(pos, to)),
                    ..self.with_cur(BotView { pos: to, ..bot })
                }
            },
            Cmd::LMove(sld1, sld2) => {
                let corner = pos.offset(sld1.0);
                let to = corner.offset(sld2.0);
                SystemView {
                    energy: self.energy + 2 * (sld1.0.spec_mlen() + 2 + sld2.0.spec_mlen()),
                    marks: self.marks.union(span(pos, corner)).union(span(corner, to)),
                    ..self.with_cur(BotView { pos: to, ..bot })
                }
            },
            Cmd::Fission(nd, m) => {
                let child = BotView {
                    bid: bot.seeds[0],
                    pos: pos.offset(nd.0),
                    seeds: bot.seeds.subrange(1, m + 1),
                };
                SystemView {
                    energy: self.energy + 24,
                    marks: self.marks.insert(child.pos),
                    new_bots: self.new_bots.push(child),
                    ..self.with_cur(
                        BotView {
                            seeds: bot.seeds.subrange(m + 1, bot.seeds.len() as int),
                            ..bot
                        },
                    )
                }
            },
            Cmd::Fill(nd) => {
                let c = pos.offset(nd.0);
                if self.full.contains(c) {
                    SystemView { energy: self.energy + 6, marks: self.marks.insert(c), ..self }
                } else {
                    SystemView {
                        energy: self.energy + 12,
                        full: self.full.insert(c),
                        targets: without(self.targets, c),
                        marks: self.marks.insert(c),
                        ..self
                    }
                }
            },
            Cmd::Void(nd) => {
                let c = pos.offset(nd.0);
                if self.full.contains(c) {
                    SystemView {
                        energy: self.energy - 12,
                        full: self.full.remove(c),
                        targets: without(self.targets, c),
                        marks: self.marks.insert(c),
                        ..self
                    }
                } else {
                    SystemView { energy: self.energy + 3, marks: self.marks.insert(c), ..self }
                }
            },
            Cmd::FusionP(nd) => {
                let s_pos = pos.offset(nd.0);
                let other = self.bots[first_at(self.bots, s_pos)];
                SystemView {
                    energy: self.energy - 24,
                    reserved: self.reserved.push((s_pos, pos)),
                    removed: self.removed.push(other.bid),
                    ..self.with_cur(
                        BotView { seeds: fused_seeds(bot.seeds, other.bid, other.seeds), ..bot },
                    )
                }
            },
        }
    }

    /// The state at the start of the next time step: the step's price is paid, the harmonics
    /// have changed if that was asked for, the bots that were split off have joined the
    /// others and those that were taken over have left, in ascending order of identity, and
    /// nothing is claimed but the places of the bots.
    pub open spec fn closed_step(self) -> SystemView {
        let price: int = if self.harmonics == Harmonics::High {
            30
        } else {
            3
        };
        let bots = joined_in(
            survivors(self.bots, self.removed),
            survivors(self.new_bots, self.removed),
        );
        SystemView {
            energy: self.energy + price * (self.r * self.r * self.r) + 20 * self.bots.len(),
            harmonics: if self.flip {
                if self.harmonics == Harmonics::High {
                    Harmonics::Low
                } else {
                    Harmonics::High
                }
            } else {
                self.harmonics
            },
            bots,
            bot_index: 0,
            marks: places(bots, self.r),
            flip: false,
            new_bots: Seq::empty(),
            removed: Seq::empty(),
            reserved: Seq::empty(),
            ..self
        }
    }

    /// The state after `cmd` has been recorded and the turn has passed on.
    pub open spec fn moved_on(self, cmd: Cmd) -> SystemView {
        SystemView { records: self.records.push(cmd), bot_index: self.bot_index + 1, ..self }
    }

    /// The state after `cmd` has been recorded and the turn has passed on; the time step
    /// closes when every bot has had its turn.
    pub open spec fn advanced(self, cmd: Cmd) -> SystemView {
        let next = self.moved_on(cmd);
        if next.bot_index == next.bots.len() {
            next.closed_step()
        } else {
            next
        }
    }

    /// The state after the command `cmd` of the bot whose turn it is: unchanged where the
    /// command interferes, and without bots after `Halt`.
    #[verifier::opaque]
    pub open spec fn step(self, cmd: Cmd) -> SystemView {
        if self.interferes(cmd) {
            self
        } else {
            let next = self.apply(cmd).advanced(cmd);
            if cmd is Halt {
                SystemView { bots: Seq::empty(), ..next }
            } else {
                next
            }
        }
    }

    /// How the command `cmd` of the bot whose turn it is ends.
    pub open spec fn outcome(self, cmd: Cmd) -> CmdResult {
        if self.interferes(cmd) {
            CmdResult::Interfared
        } else if cmd is Halt {
            CmdResult::Halt
        } else {
            CmdResult::Continue
        }
    }
}


impl SystemView {
    /// The bots and the bots that were split off in this step stand in the grid, each on a
    /// claimed voxel of its own, and the bots are in ascending order of identity, which is
    /// one of the forty.
    #[verifier::opaque]
    pub open spec fn bots_inv(self) -> bool {
        &&& forall|i: int|
            0 <= i < self.bots.len() ==> (#[trigger] self.bots[i]).pos.in_range(self.r)
                && self.marks.contains(self.bots[i].pos)
        &&& forall|i: int|
            0 <= i < self.new_bots.len() ==> (#[trigger] self.new_bots[i]).pos.in_range(self.r)
                && self.marks.contains(self.new_bots[i].pos)
        &&& forall|i: int, j: int|
            0 <= i < j < self.bots.len() ==> (#[trigger] self.bots[i]).pos != (
            #[trigger] self.bots[j]).pos
        &&& forall|i: int, j: int|
            0 <= i < j < self.new_bots.len() ==> (#[trigger] self.new_bots[i]).pos != (
            #[trigger] self.new_bots[j]).pos
        &&& forall|i: int, j: int|
            0 <= i < self.bots.len() && 0 <= j < self.new_bots.len() ==> (
            #[trigger] self.bots[i]).pos != (#[trigger] self.new_bots[j]).pos
        &&& forall|i: int, j: int|
            0 <= i < j < self.bots.len() ==> (#[trigger] self.bots[i]).bid < (
            #[trigger] self.bots[j]).bid
        &&& forall|i: int| 0 <= i < self.bots.len() ==> 1 <= (#[trigger] self.bots[i]).bid <= 40
    }

    /// How often the bots that stay, and the bots that were split off in this step, hold the
    /// identity `id`.
    pub open spec fn id_count(self, id: BotId) -> nat {
        held(self.bots, self.removed, id) + held(self.new_bots, self.removed, id)
    }

    /// Each of the forty identities is held once, by a bot that stays or by one that was
    /// split off, as its own or as a seed, and no other identity is held. A bot that is to
    /// be removed is one for which a fusion is agreed, and where a fusion is agreed for a
    /// place, a bot that is to be removed stands there. No bot whose turn is still to come
    /// holds the identity of a bot that is to be removed.
    #[verifier::opaque]
    pub open spec fn ids_inv(self) -> bool {
        &&& forall|id: BotId| #[trigger] self.id_count(id) == due(id)
        &&& forall|i: int|
            0 <= i < self.bots.len() && self.removed.contains((#[trigger] self.bots[i]).bid)
                ==> lookup(self.reserved, self.bots[i].pos) is Some
        &&& forall|i: int, k: int|
            self.bot_index <= i < self.bots.len() && !self.removed.contains(self.bots[i].bid) && 0
                <= k < self.bots[i].seeds.len() ==> !self.removed.contains(
                #[trigger] self.bots[i].seeds[k],
            )
        &&& forall|k: int|
            0 <= k < self.reserved.len() ==> leaves_from(
                self.bots,
                self.removed,
                (#[trigger] self.reserved[k]).0,
            )
    }

    /// Whether the run has ended: the last command was `Halt`.
    pub open spec fn halted(self) -> bool {
        self.records.len() > 0 && self.records.last() is Halt
    }

    /// Each fusion agreed in this step names two places of the grid that are near each
    /// other, and a bot that has had its turn stands at the second.
    #[verifier::opaque]
    pub open spec fn reserved_inv(self) -> bool {
        forall|k: int|
            0 <= k < self.reserved.len() ==> {
                let pair = #[trigger] self.reserved[k];
                &&& pair.0.in_range(self.r)
                &&& pair.1.in_range(self.r)
                &&& pair.1.diff_from(pair.0).near()
                &&& exists|i: int|
                    0 <= i < self.bot_index && i < self.bots.len() && self.bots[i].pos == pair.1
            }
    }

    /// What holds of the grid, the queue, the bots and the agreed fusions at any time. The
    /// voxels of the queue are still to be worked: void where the model is assembled, full
    /// where it is taken apart.
    #[verifier::opaque]
    pub open spec fn core_inv(self) -> bool {
        &&& 1 <= self.r <= MAX_SIDE
        &&& forall|c: Cord| self.full.contains(c) ==> c.in_range(self.r)
        &&& forall|c: Cord| self.marks.contains(c) ==> c.in_range(self.r)
        &&& targets_sorted(self.targets)
        &&& cords_distinct(self.targets)
        &&& forall|k: int|
            0 <= k < self.targets.len() ==> (#[trigger] self.targets[k]).cord.in_range(self.r)
                && self.full.contains(self.targets[k].cord) == !self.model_id.is_assemble()
        &&& self.bots_inv()
        &&& self.reserved_inv()
        &&& self.records.len() <= MAX_TRACE
    }

    /// It is some bot's turn, unless no bot is left, and the energy has not grown faster
    /// than the trace allows.
    pub open spec fn base_inv(self) -> bool {
        &&& self.core_inv()
        &&& self.bots.len() == 0 ==> self.bot_index == 0
        &&& self.bots.len() > 0 ==> 0 <= self.bot_index < self.bots.len()
        &&& -MAX_COST * self.records.len() <= self.energy <= MAX_COST * self.records.len()
    }

    /// What holds of a system between two commands: after `Halt` no bot is left, and until
    /// then the forty identities are held once each.
    pub open spec fn inv(self) -> bool {
        &&& self.base_inv()
        &&& self.halted() ==> self.bots.len() == 0
        &&& !self.halted() ==> self.ids_inv()
    }

    /// What holds when a step has been closed, before the bot that halted is taken away.
    pub open spec fn inv_closed(self) -> bool {
        self.base_inv() && self.ids_inv()
    }

    /// What holds when a command has been recorded and the step has not been closed yet:
    /// every bot may have had its turn, and the price of a step is still in hand.
    pub open spec fn inv_open(self) -> bool {
        &&& self.core_inv()
        &&& self.ids_inv()
        &&& 0 < self.bot_index <= self.bots.len()
        &&& -MAX_COST * self.records.len() + (MAX_COST - 30) <= self.energy <= MAX_COST
            * self.records.len() - (MAX_COST - 30)
    }

    /// Whether a bot is left to take a command.
    pub open spec fn live(self) -> bool {
        self.bots.len() > 0
    }

    /// The targets that no command of this step has claimed.
    pub open spec fn free_targets(self) -> Seq<PriorityTarget> {
        self.targets.filter(|e: PriorityTarget| !self.marks.contains(e.cord))
    }
}

} // verus!
