use crate::bot::{Bot, BotId};
use crate::geometry::{Cord, Region};
use crate::grid::{flag_at, flags_get, flags_new, flags_set, flags_wf, MAX_SIDE};
use vstd::prelude::*;

verus! {

/// What one time step has claimed so far: the voxels that commands of this step have touched,
/// a pending flip of the harmonics, and the bots that come and go when the step closes.
#[derive(Debug)]
pub struct Volatile {
    pub r: usize,
    pub flip: bool,
    pub interfared_cords: Vec<bool>,
    pub new_bots: Vec<Bot>,
    pub removed_bots: Vec<BotId>,
}

impl Volatile {
    /// There is one mark for each voxel of the grid.
    pub open spec fn wf(&self) -> bool {
        flags_wf(self.interfared_cords@, self.r as int)
    }

    /// Whether the voxel at `c` has been claimed in this step.
    pub open spec fn marked(&self, c: Cord) -> bool {
        flag_at(self.interfared_cords@, self.r as int, c)
    }

    /// The claimed voxels of the grid.
    pub open spec fn marks(&self) -> Set<Cord> {
        Set::new(|c: Cord| c.in_range(self.r as int) && self.marked(c))
    }

    /// The record of a step that begins with the given bots: their positions are claimed,
    /// and nothing else is.
    pub fn new(r: usize, bots: &Vec<Bot>) -> (v: Volatile)
        requires
            r <= MAX_SIDE,
            forall|i: int| 0 <= i < bots.len() ==> (#[trigger] bots[i]).pos.in_range(r as int),
        ensures
            v.wf(),
            v.r == r,
            !v.flip,
            v.new_bots@.len() == 0,
            v.removed_bots@.len() == 0,
            forall|c: Cord|
                c.in_range(r as int) ==> v.marked(c) == (exists|i: int|
                    0 <= i < bots.len() && bots[i].pos == c),
    {
        let mut v = Volatile {
            r,
            flip: false,
            interfared_cords: flags_new(r),
            new_bots: Vec::new(),
            removed_bots: Vec::new(),
        };
        let mut k: usize = 0;
        while k < bots.len()
            invariant
                k <= bots.len(),
                forall|i: int| 0 <= i < bots.len() ==> (#[trigger] bots[i]).pos.in_range(r as int),
                v.wf(),
                v.r == r,
                !v.flip,
                v.new_bots@.len() == 0,
                v.removed_bots@.len() == 0,
                forall|c: Cord|
                    c.in_range(r as int) ==> v.marked(c) == (exists|i: int|
                        0 <= i < k && bots[i].pos == c),
            decreases bots.len() - k,
        {
            let pos = bots[k].pos;
            let ghost before = v;
            v.mark(pos);
            proof {
                assert forall|c: Cord| c.in_range(r as int) implies v.marked(c) == (exists|i: int|
                    0 <= i < k + 1 && bots[i].pos == c) by {
                    if c == pos {
                        assert(bots[k as int].pos == c);
                    } else if before.marked(c) {
                        let i = choose|i: int| 0 <= i < k && bots[i].pos == c;
                        assert(0 <= i < k + 1 && bots[i].pos == c);
                    }
                }
            }
            k = k + 1;
        }
        v
    }

    /// Whether the voxel at `c` has been claimed in this step.
    pub fn is_interfered(&self, c: &Cord) -> (b: bool)
        requires
            self.wf(),
            c.in_range(self.r as int),
        ensures
            b == self.marked(*c),
    {
        flags_get(&self.interfared_cords, self.r, *c)
    }

    /// Asks for the harmonics to change when the step closes; asked twice, they stay.
    pub fn flip(&mut self)
        ensures
            final(self).flip == !old(self).flip,
            final(self).r == old(self).r,
            final(self).interfared_cords == old(self).interfared_cords,
            final(self).new_bots == old(self).new_bots,
            final(self).removed_bots == old(self).removed_bots,
    {
        self.flip = !self.flip;
    }

    /// Claims the voxel at `cord`.
    pub fn mark(&mut self, cord: Cord)
        requires
            old(self).wf(),
            cord.in_range(old(self).r as int),
        ensures
            final(self).wf(),
            final(self).marked(cord),
            forall|o: Cord|
                o.in_range(final(self).r as int) && o != cord ==> final(self).marked(o) == old(
                    self,
                ).marked(o),
            final(self).marks() == old(self).marks().insert(cord),
            final(self).r == old(self).r,
            final(self).flip == old(self).flip,
            final(self).new_bots == old(self).new_bots,
            final(self).removed_bots == old(self).removed_bots,
    {
        flags_set(&mut self.interfared_cords, self.r, cord, true);
        assert(self.marks() =~= old(self).marks().insert(cord));
    }

    /// Claims every voxel of `region`.
    pub fn mark_region(&mut self, region: &Region)
        requires
            old(self).wf(),
            forall|c: Cord| region.contains(c) ==> c.in_range(old(self).r as int),
        ensures
            final(self).wf(),
            forall|o: Cord|
                o.in_range(final(self).r as int) ==> final(self).marked(o) == (old(self).marked(o)
                    || region.contains(o)),
            final(self).marks() == old(self).marks().union(Set::new(|c: Cord| region.contains(c))),
            final(self).r == old(self).r,
            final(self).flip == old(self).flip,
            final(self).new_bots == old(self).new_bots,
            final(self).removed_bots == old(self).removed_bots,
    {
        let cords = region.all_cords();
        let mut k: usize = 0;
        while k < cords.len()
            invariant
                k <= cords.len(),
                self.wf(),
                forall|c: Cord| cords@.contains(c) <==> region.contains(c),
                forall|c: Cord| region.contains(c) ==> c.in_range(self.r as int),
                forall|o: Cord|
                    o.in_range(self.r as int) ==> self.marked(o) == (old(self).marked(o) || exists|
                        i: int,
                    |
                        0 <= i < k && cords[i] == o),
                self.r == old(self).r,
                self.flip == old(self).flip,
                self.new_bots == old(self).new_bots,
                self.removed_bots == old(self).removed_bots,
            decreases cords.len() - k,
        {
            let c = cords[k];
            assert(cords@.contains(c));
            assert(region.contains(c));
            let ghost before = *self;
            self.mark(c);
            proof {
                assert forall|o: Cord| o.in_range(self.r as int) implies self.marked(o) == (old(
                    self,
                ).marked(o) || exists|i: int| 0 <= i < k + 1 && cords[i] == o) by {
                    if o == c {
                        assert(cords[k as int] == o);
                    } else if before.marked(o) && !old(self).marked(o) {
                        let i = choose|i: int| 0 <= i < k && cords[i] == o;
                        assert(0 <= i < k + 1 && cords[i] == o);
                    }
                }
            }
            k = k + 1;
        }
        proof {
            assert forall|o: Cord| o.in_range(self.r as int) implies self.marked(o) == (old(
                self,
            ).marked(o) || region.contains(o)) by {
                if region.contains(o) {
                    assert(cords@.contains(o));
                    let i = choose|i: int| 0 <= i < cords.len() && cords[i] == o;
                    assert(0 <= i < k && cords[i] == o);
                }
                if exists|i: int| 0 <= i < k && cords[i] == o {
                    let i = choose|i: int| 0 <= i < k && cords[i] == o;
                    assert(cords@.contains(o));
                }
            }
            assert(self.marks() =~= old(self).marks().union(
                Set::new(|c: Cord| region.contains(c)),
            ));
        }
    }

    /// Claims the place of a bot that was split off, and keeps the bot until the step closes.
    pub fn queue_new_bot(&mut self, new_bot: Bot)
        requires
            old(self).wf(),
            new_bot.pos.in_range(old(self).r as int),
        ensures
            final(self).wf(),
            final(self).marked(new_bot.pos),
            forall|o: Cord|
                o.in_range(final(self).r as int) && o != new_bot.pos ==> final(self).marked(o)
                    == old(self).marked(o),
            final(self).marks() == old(self).marks().insert(new_bot.pos),
            final(self).new_bots@ == old(self).new_bots@.push(new_bot),
            final(self).r == old(self).r,
            final(self).flip == old(self).flip,
            final(self).removed_bots == old(self).removed_bots,
    {
        self.mark(new_bot.pos);
        self.new_bots.push(new_bot);
    }

    /// Notes that the bot `bid` leaves when the step closes.
    pub fn queue_removed_bot(&mut self, bid: BotId)
        ensures
            final(self).removed_bots@ == old(self).removed_bots@.push(bid),
            final(self).r == old(self).r,
            final(self).flip == old(self).flip,
            final(self).interfared_cords == old(self).interfared_cords,
            final(self).new_bots == old(self).new_bots,
    {
        self.removed_bots.push(bid);
    }
}

} // verus!
