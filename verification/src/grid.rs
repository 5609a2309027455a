use crate::geometry::{Cord, lemma_linear_index_bound, lemma_linear_index_injective, linear_index};
use vstd::prelude::*;

verus! {

/// The largest side of a grid: the side is read from one byte.
pub const MAX_SIDE: usize = 255;

/// One flag for each voxel of a grid of side `r`, in the order of the linear index.
pub open spec fn flags_wf(bits: Seq<bool>, r: int) -> bool {
    0 <= r <= MAX_SIDE && bits.len() == r * r * r
}

/// The flag of the voxel `c`.
pub open spec fn flag_at(bits: Seq<bool>, r: int, c: Cord) -> bool {
    bits[linear_index(c, r)]
}

/// How many flags are set.
pub open spec fn count_set(bits: Seq<bool>) -> nat
    decreases bits.len(),
{
    if bits.len() == 0 {
        0
    } else {
        count_set(bits.drop_last()) + if bits.last() {
            1nat
        } else {
            0nat
        }
    }
}

/// No more flags are set than there are flags.
pub proof fn lemma_count_bound(bits: Seq<bool>)
    ensures
        count_set(bits) <= bits.len(),
    decreases bits.len(),
{
    if bits.len() > 0 {
        lemma_count_bound(bits.drop_last());
    }
}

/// Where no flag is set the count is zero.
pub proof fn lemma_count_none(bits: Seq<bool>)
    requires
        forall|i: int| 0 <= i < bits.len() ==> !bits[i],
    ensures
        count_set(bits) == 0,
    decreases bits.len(),
{
    if bits.len() > 0 {
        lemma_count_none(bits.drop_last());
    }
}

/// Setting a flag that was clear raises the count by one.
pub proof fn lemma_count_raise(bits: Seq<bool>, i: int)
    requires
        0 <= i < bits.len(),
        !bits[i],
    ensures
        count_set(bits.update(i, true)) == count_set(bits) + 1,
    decreases bits.len(),
{
    let after = bits.update(i, true);
    if i == bits.len() - 1 {
        assert(after.drop_last() =~= bits.drop_last());
    } else {
        lemma_count_raise(bits.drop_last(), i);
        assert(after.drop_last() =~= bits.drop_last().update(i, true));
    }
}

/// A grid of side at most `MAX_SIDE` has fewer than 2^24 voxels.
pub proof fn lemma_volume_bound(r: int)
    requires
        0 <= r <= MAX_SIDE,
    ensures
        0 <= r * r <= 65025,
        0 <= r * r * r <= 16581375,
{
    assert(0 <= r * r <= 65025) by (nonlinear_arith)
        requires
            0 <= r <= 255,
    ;
    assert(0 <= r * r * r <= 16581375) by (nonlinear_arith)
        requires
            0 <= r <= 255,
    ;
}

/// A grid of side `r` with no flag set.
pub fn flags_new(r: usize) -> (bits: Vec<bool>)
    requires
        r <= MAX_SIDE,
    ensures
        flags_wf(bits@, r as int),
        forall|c: Cord| c.in_range(r as int) ==> !flag_at(bits@, r as int, c),
        count_set(bits@) == 0,
{
    proof {
        lemma_volume_bound(r as int);
    }
    let bits = vec![false; r * r * r];
    proof {
        lemma_count_none(bits@);
        assert forall|c: Cord| c.in_range(r as int) implies !flag_at(bits@, r as int, c) by {
            lemma_linear_index_bound(c, r as int);
        }
    }
    bits
}

/// The flag of the voxel `c`.
pub fn flags_get(bits: &Vec<bool>, r: usize, c: Cord) -> (b: bool)
    requires
        flags_wf(bits@, r as int),
        c.in_range(r as int),
    ensures
        b == flag_at(bits@, r as int, c),
{
    proof {
        lemma_volume_bound(r as int);
    }
    bits[c.to_linear_index(r)]
}

/// Sets the flag of `c` to `v` and leaves every other voxel's flag as it was.
pub fn flags_set(bits: &mut Vec<bool>, r: usize, c: Cord, v: bool)
    requires
        flags_wf(old(bits)@, r as int),
        c.in_range(r as int),
    ensures
        flags_wf(final(bits)@, r as int),
        flag_at(final(bits)@, r as int, c) == v,
        v && !flag_at(old(bits)@, r as int, c) ==> count_set(final(bits)@) == count_set(
            old(bits)@,
        ) + 1,
        forall|o: Cord|
            o.in_range(r as int) && o != c ==> flag_at(final(bits)@, r as int, o) == flag_at(
                old(bits)@,
                r as int,
                o,
            ),
{
    proof {
        lemma_volume_bound(r as int);
    }
    let i = c.to_linear_index(r);
    bits.set(i, v);
    proof {
        if v && !flag_at(old(bits)@, r as int, c) {
            lemma_count_raise(old(bits)@, i as int);
        }
        assert forall|o: Cord| o.in_range(r as int) && o != c implies flag_at(
            bits@,
            r as int,
            o,
        ) == flag_at(old(bits)@, r as int, o) by {
            lemma_linear_index_bound(o, r as int);
            if linear_index(o, r as int) == linear_index(c, r as int) {
                lemma_linear_index_injective(o, c, r as int);
            }
        }
    }
}

} // verus!
