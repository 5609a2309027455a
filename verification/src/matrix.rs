use crate::geometry::Cord;
use crate::grid::{flag_at, flags_get, flags_new, flags_set, flags_wf};
use crate::model::{Model, ModelId};
use vstd::prelude::*;

verus! {

/// The voxels that are full, one flag for each voxel of a grid of side `r`.
pub struct Matrix {
    pub r: usize,
    pub full: Vec<bool>,
}

impl Matrix {
    /// There is one flag for each voxel of the grid.
    pub open spec fn wf(&self) -> bool {
        flags_wf(self.full@, self.r as int)
    }

    /// Whether the voxel at `c` is full.
    pub open spec fn full_at(&self, c: Cord) -> bool {
        flag_at(self.full@, self.r as int, c)
    }

    /// The full voxels of the grid.
    pub open spec fn full_set(&self) -> Set<Cord> {
        Set::new(|c: Cord| c.in_range(self.r as int) && self.full_at(c))
    }

    /// The matrix that work on `model` starts from: all void where the shape is to be
    /// assembled, the shape itself where it is to be taken apart.
    pub fn new(model: &Model) -> (m: Matrix)
        requires
            model.wf(),
        ensures
            m.wf(),
            m.r == model.r,
            forall|c: Cord|
                c.in_range(m.r as int) ==> m.full_at(c) == (!model.id.is_assemble()
                    && model.is_target(c)),
    {
        let r = model.r;
        let mut full = flags_new(r);
        match model.id {
            ModelId::Assemble(_) => {},
            ModelId::Disassemble(_) => {
                let mut k: usize = 0;
                while k < model.targets.len()
                    invariant
                        model.wf(),
                        r == model.r,
                        k <= model.targets.len(),
                        flags_wf(full@, r as int),
                        forall|c: Cord|
                            c.in_range(r as int) ==> flag_at(full@, r as int, c) == (exists|
                                j: int,
                            |
                                0 <= j < k && model.targets[j] == c),
                    decreases model.targets.len() - k,
                {
                    let t = model.targets[k];
                    assert(model.targets@.contains(t));
                    assert(model.is_target(t));
                    let ghost before = full@;
                    flags_set(&mut full, r, t, true);
                    proof {
                        assert forall|c: Cord| c.in_range(r as int) implies flag_at(
                            full@,
                            r as int,
                            c,
                        ) == (exists|j: int| 0 <= j < k + 1 && model.targets[j] == c) by {
                            if c == t {
                                assert(model.targets[k as int] == c);
                            } else if flag_at(before, r as int, c) {
                                let j = choose|j: int| 0 <= j < k && model.targets[j] == c;
                                assert(0 <= j < k + 1 && model.targets[j] == c);
                            }
                        }
                    }
                    k = k + 1;
                }
                proof {
                    assert forall|c: Cord| c.in_range(r as int) implies flag_at(
                        full@,
                        r as int,
                        c,
                    ) == model.is_target(c) by {
                        if model.is_target(c) {
                            assert(model.targets@.contains(c));
                            let j = choose|j: int|
                                0 <= j < model.targets.len() && model.targets[j] == c;
                            assert(0 <= j < k && model.targets[j] == c);
                        }
                    }
                }
            },
        }
        Matrix { r, full }
    }

    /// Whether the voxel at `c` is full.
    pub fn is_full(&self, c: Cord) -> (b: bool)
        requires
            self.wf(),
            c.in_range(self.r as int),
        ensures
            b == self.full_at(c),
    {
        flags_get(&self.full, self.r, c)
    }

    /// Makes the void voxel at `c` full.
    pub fn fill(&mut self, c: Cord)
        requires
            old(self).wf(),
            c.in_range(old(self).r as int),
            !old(self).full_at(c),
        ensures
            final(self).wf(),
            final(self).r == old(self).r,
            final(self).full_at(c),
            final(self).full_set() == old(self).full_set().insert(c),
            forall|o: Cord|
                o.in_range(final(self).r as int) && o != c ==> final(self).full_at(o) == old(
                    self,
                ).full_at(o),
    {
        flags_set(&mut self.full, self.r, c, true);
        assert(self.full_set() =~= old(self).full_set().insert(c));
    }

    /// Makes the full voxel at `c` void.
    pub fn void(&mut self, c: Cord)
        requires
            old(self).wf(),
            c.in_range(old(self).r as int),
            old(self).full_at(c),
        ensures
            final(self).wf(),
            final(self).r == old(self).r,
            !final(self).full_at(c),
            final(self).full_set() == old(self).full_set().remove(c),
            forall|o: Cord|
                o.in_range(final(self).r as int) && o != c ==> final(self).full_at(o) == old(
                    self,
                ).full_at(o),
    {
        flags_set(&mut self.full, self.r, c, false);
        assert(self.full_set() =~= old(self).full_set().remove(c));
    }
}

} // verus!
