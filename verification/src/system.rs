use crate::bot::{Bot, bot_views, BotId, BotView, Cmd, initial_seeds};
use crate::geometry::{Cord, CordDiff, LongLinear, Near, Region, ShortLinear};
use crate::grid::MAX_SIDE;
use crate::laws::{
    lemma_close_inv, lemma_inv_facts, lemma_open_facts, lemma_span_in_range, lemma_turn_inv,
    lemma_walk_end,
};
use crate::matrix::Matrix;
use crate::model::{Model, ModelId};
use crate::state::{along, first_at, has_bot_at, joined_in, place_of, starts, survivors, SystemView};
use crate::target::{PriorityTarget, PriorityTargets, top_cords};
use crate::volatile::Volatile;
use vstd::prelude::*;

verus! {

/// How a command ended.
#[derive(Debug, PartialEq, Eq, Clone, Copy, Structural)]
pub enum CmdResult {
    Interfared,
    Continue,
    Halt,
}

/// The global mode that sets the price of a time step.
#[derive(PartialEq, Eq, Debug, Clone, Copy, Structural)]
pub enum Harmonics {
    Low,
    High,
}

/// The longest trace that a system records.
pub const MAX_TRACE: usize = 2_000_000_000;

/// No command with the step that it may close changes the energy by more than this: thirty
/// for the command, thirty for each voxel of the largest grid and twenty for each of forty
/// bots for the step.
pub const MAX_COST: i64 = 497_442_080;

/// The state of a run: the matrix, the bots, whose turn it is, what the running time step
/// has claimed, and the commands so far.
pub struct System {
    pub model_id: ModelId,
    pub energy: i64,
    pub harmonics: Harmonics,
    pub matrix: Matrix,
    pub priority_targets: PriorityTargets,
    pub bots: Vec<Bot>,
    pub bot_index: usize,
    pub volatile: Volatile,
    /// The fusions agreed in this step, as pairs of the place of the bot that leaves and
    /// the place of the bot that takes it over; a later pair overrides an earlier one.
    pub reserved_fusion: Vec<(Cord, Cord)>,
    pub records: Vec<Cmd>,
}

impl View for System {
    type V = SystemView;

    open spec fn view(&self) -> SystemView {
        SystemView {
            r: self.matrix.r as int,
            model_id: self.model_id,
            energy: self.energy as int,
            harmonics: self.harmonics,
            full: self.matrix.full_set(),
            targets: self.priority_targets.priority_targets@,
            bots: bot_views(self.bots@),
            bot_index: self.bot_index as int,
            marks: self.volatile.marks(),
            flip: self.volatile.flip,
            new_bots: bot_views(self.volatile.new_bots@),
            removed: self.volatile.removed_bots@,
            reserved: self.reserved_fusion@,
            records: self.records@,
        }
    }
}

impl System {
    /// The matrix and the marks cover the same grid, and the invariant of the state holds.
    pub open spec fn wf(&self) -> bool {
        &&& self.matrix.wf()
        &&& self.volatile.wf()
        &&& self.volatile.r == self.matrix.r
        &&& self@.inv()
    }

    /// The system at the start of work on `model`: one bot at the origin, nothing recorded.
    pub fn new(model: &Model) -> (sys: System)
        requires
            model.wf(),
            1 <= model.r,
        ensures
            sys.wf(),
            starts(model, sys@),
    {
        let mut bots: Vec<Bot> = Vec::new();
        bots.push(Bot::new_at_origin());
        let volatile = Volatile::new(model.r, &bots);
        let sys = System {
            model_id: model.id,
            energy: 0,
            harmonics: Harmonics::Low,
            matrix: Matrix::new(model),
            priority_targets: PriorityTargets::new(model),
            bots,
            bot_index: 0,
            volatile,
            reserved_fusion: Vec::new(),
            records: Vec::new(),
        };
        proof {
            reveal(SystemView::core_inv);
            reveal(SystemView::bots_inv);
            reveal(SystemView::reserved_inv);
            crate::partition::lemma_first_ids(sys@);
            let origin = Cord { x: 0, y: 0, z: 0 };
            assert(sys@.bots =~= seq![BotView { bid: 1, pos: origin, seeds: initial_seeds() }]);
            assert(sys.bots[0].pos == origin);
            assert(sys@.marks =~= set![origin]);
            assert(sys@.new_bots =~= Seq::empty());
            assert forall|k: int| 0 <= k < sys@.targets.len() implies (
            #[trigger] sys@.targets[k]).cord.in_range(sys@.r) && sys@.full.contains(
                sys@.targets[k].cord,
            ) == !sys@.model_id.is_assemble() by {
                assert(model.is_target(sys@.targets[k].cord));
            }
        }
        sys
    }

    /// The bot whose turn it is.
    pub fn current_bot(&self) -> (bot: &Bot)
        requires
            self.bot_index < self.bots.len(),
        ensures
            *bot == self.bots[self.bot_index as int],
            bot@ == self@.cur(),
    {
        &self.bots[self.bot_index]
    }

    /// Whether the voxel at `c` is full or has been claimed in this step.
    pub fn is_interfared(&self, c: Cord) -> (b: bool)
        requires
            self.wf(),
            c.in_range(self@.r),
        ensures
            b == self@.blocked(c),
    {
        self.matrix.is_full(c) || self.volatile.is_interfered(&c)
    }

    /// Whether the voxel at `c` lies outside the grid, is full, or has been claimed in this
    /// step.
    pub fn is_blocked(&self, c: Cord) -> (b: bool)
        requires
            self.wf(),
        ensures
            b == self@.blocked(c),
    {
        proof {
            lemma_inv_facts(self@);
        }
        !c.is_in_range(self.matrix.r) || self.is_interfared(c)
    }

    /// The coordinates of the unclaimed targets that share the lowest priority among the
    /// unclaimed targets.
    pub fn free_priority_targets(&self) -> (cords: Vec<Cord>)
        requires
            self.wf(),
        ensures
            cords@ == top_cords(self@.free_targets()),
    {
        let ghost free = |e: PriorityTarget| !self@.marks.contains(e.cord);
        let ghost all = self.priority_targets.priority_targets@;
        let mut targets: Vec<PriorityTarget> = Vec::new();
        let mut k: usize = 0;
        assert(all.subrange(0, 0) =~= Seq::empty());
        while k < self.priority_targets.priority_targets.len()
            invariant
                self.wf(),
                all == self.priority_targets.priority_targets@,
                free == |e: PriorityTarget| !self@.marks.contains(e.cord),
                k <= all.len(),
                targets@ == all.subrange(0, k as int).filter(free),
            decreases all.len() - k,
        {
            broadcast use vstd::seq_lib::group_filter_ensures;

            let e = self.priority_targets.priority_targets[k];
            proof {
                reveal(SystemView::core_inv);
                assert(self@.targets[k as int].cord.in_range(self@.r));
                let head = all.subrange(0, k as int);
                assert(all.subrange(0, k + 1) =~= head.push(e));
                head.lemma_filter_push(e, free);
            }
            if !self.volatile.is_interfered(&e.cord) {
                targets.push(e);
            }
            k = k + 1;
        }
        assert(all.subrange(0, all.len() as int) =~= all);
        PriorityTargets::top_priority_targets(&targets)
    }
}


/// Whether `id` stands in the list.
fn holds_id(ids: &Vec<BotId>, id: BotId) -> (b: bool)
    ensures
        b == ids@.contains(id),
{
    let mut k: usize = 0;
    while k < ids.len()
        invariant
            k <= ids.len(),
            forall|j: int| 0 <= j < k ==> ids[j] != id,
        decreases ids.len() - k,
    {
        if ids[k] == id {
            return true;
        }
        k = k + 1;
    }
    false
}

/// Where a bot `bid` joins the list: behind the last bot whose identity is not larger.
fn place_for(bots: &Vec<Bot>, bid: BotId) -> (at: usize)
    ensures
        at == place_of(bot_views(bots@), bid),
        at <= bots.len(),
{
    let ghost views = bot_views(bots@);
    let mut i: usize = bots.len();
    assert(views.subrange(0, i as int) =~= views);
    while i > 0 && bots[i - 1].bid > bid
        invariant
            i <= bots.len(),
            views == bot_views(bots@),
            place_of(views, bid) == place_of(views.subrange(0, i as int), bid),
        decreases i,
    {
        assert(views.subrange(0, i as int).drop_last() =~= views.subrange(0, i - 1));
        i = i - 1;
    }
    i
}

impl System {
    /// The matrix and the marks cover the same grid.
    pub open spec fn repr(&self) -> bool {
        self.matrix.wf() && self.volatile.wf() && self.volatile.r == self.matrix.r
    }

    /// Whether one of the cells of the straight move `diff` from `start_excluding`, the
    /// start itself left out, is blocked.
    fn is_move_interfared(&self, start_excluding: Cord, diff: CordDiff) -> (b: bool)
        requires
            self.wf(),
            start_excluding.in_range(self@.r),
            diff.linear(),
        ensures
            b == self@.walk_blocked(start_excluding, diff),
    {
        proof {
            lemma_inv_facts(self@);
        }
        let direc = diff.direc();
        let mlen = diff.clen();
        let mut c = start_excluding;
        let mut cnt: u64 = 0;
        while cnt < mlen
            invariant
                self.wf(),
                diff.linear(),
                direc == diff.unit(),
                mlen == diff.spec_clen(),
                cnt <= mlen,
                cnt <= MAX_SIDE,
                start_excluding.in_range(self@.r),
                c.in_range(self@.r),
                c == along(start_excluding, diff, cnt as int),
                forall|k: int|
                    1 <= k <= cnt ==> !self@.blocked(#[trigger] along(start_excluding, diff, k)),
            decreases mlen - cnt,
        {
            proof {
                lemma_inv_facts(self@);
            }
            let next = c + direc;
            assert(next == along(start_excluding, diff, cnt + 1));
            if self.is_blocked(next) {
                return true;
            }
            c = next;
            cnt = cnt + 1;
        }
        false
    }

    /// The price of a straight move of `d`: two for each cell.
    fn walk_price(d: CordDiff) -> (price: i64)
        requires
            d.long_linear(),
        ensures
            price == 2 * d.spec_mlen(),
    {
        2 * (d.mlen() as i64)
    }

    #[verifier::rlimit(50)]
    fn do_smove(&mut self, lld: LongLinear)
        requires
            old(self).wf(),
            old(self)@.live(),
            old(self)@.admits(Cmd::SMove(lld)),
            !old(self)@.interferes(Cmd::SMove(lld)),
        ensures
            final(self).repr(),
            final(self)@ == old(self)@.apply(Cmd::SMove(lld)),
    {
        proof {
            lemma_inv_facts(self@);
        }
        let pos1 = self.bots[self.bot_index].pos;
        proof {
            lemma_walk_end(self@, pos1, lld.0);
            lemma_span_in_range(pos1, pos1.offset(lld.0), self@.r);
        }
        let to = pos1 + lld.0;
        self.bots[self.bot_index].pos = to;
        self.energy = self.energy + System::walk_price(lld.0);
        let region = Region::new(pos1, to);
        self.volatile.mark_region(&region);
        proof {
            let want = old(self)@.apply(Cmd::SMove(lld));
            assert(self@.bots =~= want.bots);
            assert(self@.marks =~= want.marks);
            assert(self@ =~= want);
        }
    }

    #[verifier::rlimit(50)]
    fn do_lmove(&mut self, sld1: ShortLinear, sld2: ShortLinear)
        requires
            old(self).wf(),
            old(self)@.live(),
            old(self)@.admits(Cmd::LMove(sld1, sld2)),
            !old(self)@.interferes(Cmd::LMove(sld1, sld2)),
        ensures
            final(self).repr(),
            final(self)@ == old(self)@.apply(Cmd::LMove(sld1, sld2)),
    {
        proof {
            lemma_inv_facts(self@);
        }
        let pos1 = self.bots[self.bot_index].pos;
        proof {
            lemma_walk_end(self@, pos1, sld1.0);
            lemma_walk_end(self@, pos1.offset(sld1.0), sld2.0);
            lemma_span_in_range(pos1, pos1.offset(sld1.0), self@.r);
            lemma_span_in_range(
                pos1.offset(sld1.0),
                pos1.offset(sld1.0).offset(sld2.0),
                self@.r,
            );
        }
        let corner = pos1 + sld1.0;
        let to = corner + sld2.0;
        self.bots[self.bot_index].pos = to;
        self.energy = self.energy + (System::walk_price(sld1.0) + 4 + System::walk_price(sld2.0));
        let region1 = Region::new(pos1, corner);
        let region2 = Region::new(corner, to);
        self.volatile.mark_region(&region1);
        self.volatile.mark_region(&region2);
        proof {
            let want = old(self)@.apply(Cmd::LMove(sld1, sld2));
            assert(self@.bots =~= want.bots);
            assert(self@.marks =~= want.marks);
            assert(self@ =~= want);
        }
    }

    #[verifier::rlimit(50)]
    fn do_fission(&mut self, nd: Near, m: usize)
        requires
            old(self).wf(),
            old(self)@.live(),
            old(self)@.admits(Cmd::Fission(nd, m)),
            !old(self)@.interferes(Cmd::Fission(nd, m)),
        ensures
            final(self).repr(),
            final(self)@ == old(self)@.apply(Cmd::Fission(nd, m)),
    {
        proof {
            lemma_inv_facts(self@);
        }
        let new_bot = self.bots[self.bot_index].fission(nd, m);
        self.energy = self.energy + 24;
        self.volatile.queue_new_bot(new_bot);
        proof {
            let want = old(self)@.apply(Cmd::Fission(nd, m));
            assert(self@.bots =~= want.bots);
            assert(self@.new_bots =~= want.new_bots);
            assert(self@ =~= want);
        }
    }

    #[verifier::rlimit(50)]
    fn do_fill(&mut self, nd: Near)
        requires
            old(self).wf(),
            old(self)@.live(),
            old(self)@.admits(Cmd::Fill(nd)),
            !old(self)@.interferes(Cmd::Fill(nd)),
        ensures
            final(self).repr(),
            final(self)@ == old(self)@.apply(Cmd::Fill(nd)),
    {
        proof {
            lemma_inv_facts(self@);
        }
        let c = self.bots[self.bot_index].pos + nd.0;
        if !self.matrix.is_full(c) {
            self.matrix.fill(c);
            self.priority_targets.remove(c);
            self.energy = self.energy + 12;
        } else {
            self.energy = self.energy + 6;
        }
        self.volatile.mark(c);
        assert(self@ =~= old(self)@.apply(Cmd::Fill(nd)));
    }

    #[verifier::rlimit(50)]
    fn do_void(&mut self, nd: Near)
        requires
            old(self).wf(),
            old(self)@.live(),
            old(self)@.admits(Cmd::Void(nd)),
            !old(self)@.interferes(Cmd::Void(nd)),
        ensures
            final(self).repr(),
            final(self)@ == old(self)@.apply(Cmd::Void(nd)),
    {
        proof {
            lemma_inv_facts(self@);
        }
        let c = self.bots[self.bot_index].pos + nd.0;
        if self.matrix.is_full(c) {
            self.matrix.void(c);
            self.priority_targets.remove(c);
            self.energy = self.energy - 12;
        } else {
            self.energy = self.energy + 3;
        }
        self.volatile.mark(c);
        assert(self@ =~= old(self)@.apply(Cmd::Void(nd)));
    }

    /// The place in the list of the first bot that stands at `pos`.
    fn find_bot_at(&self, pos: Cord) -> (k: usize)
        requires
            has_bot_at(bot_views(self.bots@), pos),
        ensures
            k < self.bots.len(),
            k == first_at(bot_views(self.bots@), pos),
    {
        let ghost bots = bot_views(self.bots@);
        let mut k: usize = 0;
        while k < self.bots.len() && !(self.bots[k].pos == pos)
            invariant
                k <= self.bots.len(),
                bots == bot_views(self.bots@),
                has_bot_at(bots, pos),
                forall|j: int| 0 <= j < k ==> bots[j].pos != pos,
            decreases self.bots.len() - k,
        {
            k = k + 1;
        }
        proof {
            let w = choose|i: int| 0 <= i < bots.len() && bots[i].pos == pos;
            assert(k < bots.len());
            assert(bots[k as int].pos == pos);
        }
        k
    }

    #[verifier::rlimit(50)]
    fn do_fusion_p(&mut self, nd: Near)
        requires
            old(self).wf(),
            old(self)@.live(),
            old(self)@.admits(Cmd::FusionP(nd)),
        ensures
            final(self).repr(),
            final(self)@ == old(self)@.apply(Cmd::FusionP(nd)),
    {
        proof {
            lemma_inv_facts(self@);
        }
        let p_pos = self.bots[self.bot_index].pos;
        let s_pos = p_pos + nd.0;
        self.reserved_fusion.push((s_pos, p_pos));
        let k = self.find_bot_at(s_pos);
        let s_bot = self.bots[k].duplicate();
        self.bots[self.bot_index].fusion(&s_bot);
        self.energy = self.energy - 24;
        self.volatile.queue_removed_bot(s_bot.bid);
        proof {
            let want = old(self)@.apply(Cmd::FusionP(nd));
            assert(self@.bots =~= want.bots);
            assert(self@ =~= want);
        }
    }

    /// The bots for the next step: those that are not removed, joined by those that were
    /// split off; and the harmonics, changed where that was asked for.
    fn apply_volatile(&mut self)
        ensures
            final(self)@ == (SystemView {
                harmonics: old(self)@.closed_step().harmonics,
                bots: old(self)@.closed_step().bots,
                ..old(self)@
            }),
            final(self).matrix == old(self).matrix,
            final(self).volatile == old(self).volatile,
    {
        if self.volatile.flip {
            self.harmonics =
            match self.harmonics {
                Harmonics::High => Harmonics::Low,
                Harmonics::Low => Harmonics::High,
            }
        }
        let ghost v = old(self)@;
        let ghost keep = |b: BotView| !v.removed.contains(b.bid);
        let mut bots: Vec<Bot> = Vec::new();
        let mut i: usize = 0;
        assert(v.bots.subrange(0, 0) =~= Seq::empty());
        assert(bot_views(bots@) =~= Seq::empty());
        while i < self.bots.len()
            invariant
                i <= self.bots.len(),
                self.bots == old(self).bots,
                self.volatile == old(self).volatile,
                v == old(self)@,
                keep == |b: BotView| !v.removed.contains(b.bid),
                bot_views(bots@) == v.bots.subrange(0, i as int).filter(keep),
            decreases self.bots.len() - i,
        {
            proof {
                let head = v.bots.subrange(0, i as int);
                assert(v.bots.subrange(0, i + 1) =~= head.push(v.bots[i as int]));
                head.lemma_filter_push(v.bots[i as int], keep);
            }
            if !holds_id(&self.volatile.removed_bots, self.bots[i].bid) {
                let ghost before = bot_views(bots@);
                bots.push(self.bots[i].duplicate());
                assert(bot_views(bots@) =~= before.push(v.bots[i as int]));
            }
            i = i + 1;
        }
        assert(v.bots.subrange(0, v.bots.len() as int) =~= v.bots);
        let ghost stay = survivors(v.bots, v.removed);
        let mut j: usize = 0;
        assert(v.new_bots.subrange(0, 0) =~= Seq::empty());
        while j < self.volatile.new_bots.len()
            invariant
                j <= self.volatile.new_bots.len(),
                self.volatile == old(self).volatile,
                v == old(self)@,
                stay == survivors(v.bots, v.removed),
                keep == |b: BotView| !v.removed.contains(b.bid),
                bot_views(bots@) == joined_in(stay, v.new_bots.subrange(0, j as int).filter(keep)),
            decreases self.volatile.new_bots.len() - j,
        {
            proof {
                let head = v.new_bots.subrange(0, j as int);
                assert(v.new_bots.subrange(0, j + 1) =~= head.push(v.new_bots[j as int]));
                head.lemma_filter_push(v.new_bots[j as int], keep);
                assert(head.filter(keep).push(v.new_bots[j as int]).drop_last() =~= head.filter(
                    keep,
                ));
            }
            if !holds_id(&self.volatile.removed_bots, self.volatile.new_bots[j].bid) {
                let bot = self.volatile.new_bots[j].duplicate();
                let at = place_for(&bots, bot.bid);
                let ghost before = bot_views(bots@);
                bots.insert(at, bot);
                assert(bot_views(bots@) =~= before.insert(at as int, v.new_bots[j as int]));
            }
            j = j + 1;
        }
        assert(v.new_bots.subrange(0, v.new_bots.len() as int) =~= v.new_bots);
        self.bots = bots;
        assert(self@ =~= (SystemView {
            harmonics: v.closed_step().harmonics,
            bots: v.closed_step().bots,
            ..v
        }));
    }

    /// Closes the time step: pays its price, lets bots come and go, and starts the record
    /// of the next step.
    fn prepare_next_time_step(&mut self)
        requires
            old(self).repr(),
            old(self)@.inv_open(),
            old(self).bot_index == old(self).bots.len(),
        ensures
            final(self).repr(),
            final(self)@ == old(self)@.closed_step(),
    {
        let ghost v = self@;
        proof {
            lemma_close_inv(v);
            lemma_open_facts(v);
            crate::grid::lemma_volume_bound(v.r);
        }
        self.bot_index = 0;
        self.reserved_fusion = Vec::new();
        let r = self.matrix.r;
        let volume: i64 = (r * r * r) as i64;
        match self.harmonics {
            Harmonics::High => {
                self.energy = self.energy + 30 * volume;
            },
            Harmonics::Low => {
                self.energy = self.energy + 3 * volume;
            },
        }
        self.energy = self.energy + 20 * (self.bots.len() as i64);
        self.apply_volatile();
        assert(bot_views(self.bots@) == v.closed_step().bots);
        proof {
            crate::laws::lemma_base_facts(v.closed_step());
        }
        assert forall|i: int| 0 <= i < self.bots.len() implies (#[trigger] self.bots[i]).pos.in_range(
            r as int,
        ) by {
            assert(bot_views(self.bots@)[i].pos.in_range(r as int));
        }
        self.volatile = Volatile::new(r, &self.bots);
        proof {
            let want = v.closed_step();
            assert(self@.marks =~= want.marks) by {
                assert forall|c: Cord| self@.marks.contains(c) == want.marks.contains(c) by {
                    if c.in_range(r as int) {
                        if self.volatile.marked(c) {
                            let i = choose|i: int| 0 <= i < self.bots.len() && self.bots[i].pos == c;
                            assert(want.bots[i].pos == c);
                        }
                        if has_bot_at(want.bots, c) {
                            let i = choose|i: int| 0 <= i < want.bots.len() && want.bots[i].pos == c;
                            assert(self.bots[i].pos == c);
                        }
                    }
                }
            }
            assert(self@.new_bots =~= want.new_bots);
            assert(self@.removed =~= want.removed);
            assert(self@.reserved =~= want.reserved);
            assert(self@ =~= want);
        }
    }

    /// Carries out `cmd` for the bot whose turn it is, unless it interferes.
    #[verifier::rlimit(30)]
    fn perform(&mut self, cmd: Cmd) -> (interfered: bool)
        requires
            old(self).wf(),
            old(self)@.live(),
            old(self)@.admits(cmd),
        ensures
            interfered == old(self)@.interferes(cmd),
            interfered ==> *final(self) == *old(self),
            !interfered ==> final(self).repr() && final(self)@ == old(self)@.apply(cmd),
    {
        proof {
            lemma_inv_facts(self@);
        }
        let ghost v = self@;
        match cmd {
            Cmd::Halt => {},
            Cmd::Wait => {},
            Cmd::Flip => {
                self.volatile.flip();
                assert(self@ =~= v.apply(cmd));
            },
            Cmd::SMove(lld) => {
                let pos1 = self.bots[self.bot_index].pos;
                if self.is_move_interfared(pos1, lld.0) {
                    return true;
                }
                self.do_smove(lld);
            },
            Cmd::LMove(sld1, sld2) => {
                let pos1 = self.bots[self.bot_index].pos;
                if self.is_move_interfared(pos1, sld1.0) {
                    return true;
                }
                proof {
                    lemma_walk_end(v, pos1, sld1.0);
                }
                if self.is_move_interfared(pos1 + sld1.0, sld2.0) {
                    return true;
                }
                self.do_lmove(sld1, sld2);
            },
            Cmd::Fission(nd, m) => {
                if self.is_blocked(self.bots[self.bot_index].pos + nd.0) {
                    return true;
                }
                self.do_fission(nd, m);
            },
            Cmd::Fill(nd) => {
                let c = self.bots[self.bot_index].pos + nd.0;
                if self.is_blocked(c) {
                    return true;
                }
                self.do_fill(nd);
            },
            Cmd::Void(nd) => {
                let c = self.bots[self.bot_index].pos + nd.0;
                if !c.is_in_range(self.matrix.r) || self.volatile.is_interfered(&c) {
                    return true;
                }
                self.do_void(nd);
            },
            Cmd::FusionP(nd) => {
                self.do_fusion_p(nd);
            },
            Cmd::FusionS(_) => {},
        }
        false
    }

    /// Carries out the command `cmd` of the bot whose turn it is, records it and passes the
    /// turn on; when every bot has had its turn, the time step is closed. A command that
    /// interferes changes nothing.
    pub fn execute_cmd(&mut self, cmd: Cmd) -> (res: CmdResult)
        requires
            old(self).wf(),
            old(self)@.live(),
            old(self)@.admits(cmd),
            old(self).records.len() < MAX_TRACE,
        ensures
            final(self).wf(),
            res == old(self)@.outcome(cmd),
            final(self)@ == old(self)@.step(cmd),
            old(self)@.interferes(cmd) ==> final(self)@ == old(self)@,
    {
        let ghost v = self@;
        proof {
            reveal(SystemView::step);
        }
        if self.perform(cmd) {
            return CmdResult::Interfared;
        }
        proof {
            lemma_inv_facts(v);
            lemma_turn_inv(v, cmd);
            lemma_open_facts(v.apply(cmd).moved_on(cmd));
        }
        self.records.push(cmd);
        self.bot_index = self.bot_index + 1;
        let ghost n = v.apply(cmd).moved_on(cmd);
        assert(self@ =~= n);
        if self.bot_index == self.bots.len() {
            self.prepare_next_time_step();
            proof {
                lemma_close_inv(n);
            }
        } else {
            proof {
                crate::laws::lemma_open_inv(n);
            }
        }
        assert(self@ == v.apply(cmd).advanced(cmd));
        match cmd {
            Cmd::Halt => {
                let ghost closed = self@;
                self.bots = Vec::new();
                proof {
                    assert(self@.bots =~= Seq::empty());
                    assert(self@ =~= v.step(cmd));
                    crate::laws::lemma_halted_inv(closed);
                }
                CmdResult::Halt
            },
            _ => CmdResult::Continue,
        }
    }
}

} // verus!
