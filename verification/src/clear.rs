use crate::bot::Cmd;
use crate::geometry::{Cord, LongLinear, ShortLinear};
use crate::grid::MAX_SIDE;
use crate::laws::{lemma_along, lemma_walk_end};
use crate::moves::{
    cmd_shift, compressed, displacement, fold_lmove, fold_smove, is_move, is_straight, joined,
    lemma_compressed_valid, lemma_displacement_push, lmove_compressed, merges, Shift,
    smove_compressed, turns,
};
use crate::search::{free_walk, is_unit_move, lands};
use crate::state::{along, SystemView};
use vstd::prelude::*;

verus! {

/// Where a bot at `from` stands after the command `cmd`.
pub open spec fn step_to(from: Cord, cmd: Cmd) -> Cord {
    Cord {
        x: (from.x + cmd_shift(cmd).x) as i32,
        y: (from.y + cmd_shift(cmd).y) as i32,
        z: (from.z + cmd_shift(cmd).z) as i32,
    }
}

/// Each of the moves `units` is a move of one cell, and none of them, carried out from
/// `from` in their order, ends on a blocked voxel: told from the first move on.
pub open spec fn free_steps(v: SystemView, from: Cord, units: Seq<Cmd>) -> bool
    decreases units.len(),
{
    units.len() == 0 || (is_unit_move(units[0]) && !v.blocked(step_to(from, units[0]))
        && free_steps(v, step_to(from, units[0]), units.drop_first()))
}

/// Whether a move of a bot that stands at `from` runs into the grid's border, into a full
/// voxel or into a voxel that the step has claimed. A command that is no move does not.
pub open spec fn move_blocked(v: SystemView, from: Cord, cmd: Cmd) -> bool {
    match cmd {
        Cmd::SMove(lld) => v.walk_blocked(from, lld.0),
        Cmd::LMove(sld1, sld2) => v.walk_blocked(from, sld1.0) || v.walk_blocked(
            from.offset(sld1.0),
            sld2.0,
        ),
        _ => false,
    }
}

proof fn lemma_steps_push(v: SystemView, from: Cord, units: Seq<Cmd>, last: Cmd)
    requires
        v.r <= MAX_SIDE,
        from.in_range(v.r),
        free_steps(v, from, units),
        is_unit_move(last),
        !v.blocked(lands(from, units.push(last))),
    ensures
        free_steps(v, from, units.push(last)),
    decreases units.len(),
{
    let all = units.push(last);
    if units.len() == 0 {
        assert(all.drop_first() =~= Seq::<Cmd>::empty());
        assert(displacement(all) == cmd_shift(last)) by {
            lemma_displacement_push(units, last);
        }
        assert(all[0] == last);
        assert(lands(from, all) == step_to(from, last));
        assert(free_steps(v, step_to(from, all[0]), all.drop_first()));
    } else {
        let next = step_to(from, units[0]);
        assert(all[0] == units[0]);
        assert(all.drop_first() =~= units.drop_first().push(last));
        assert(lands(next, units.drop_first().push(last)) == lands(from, all));
        lemma_steps_push(v, next, units.drop_first(), last);
        assert(free_steps(v, step_to(from, all[0]), all.drop_first()));
    }
}

/// A walk over free voxels, told from its last move back, is one told from its first move
/// on.
pub proof fn lemma_walk_steps(v: SystemView, from: Cord, units: Seq<Cmd>)
    requires
        v.r <= MAX_SIDE,
        from.in_range(v.r),
        free_walk(v, from, units),
    ensures
        free_steps(v, from, units),
    decreases units.len(),
{
    if units.len() > 0 {
        lemma_walk_steps(v, from, units.drop_last());
        assert(units.drop_last().push(units.last()) =~= units);
        lemma_steps_push(v, from, units.drop_last(), units.last());
    }
}

/// A straight move that grows or shrinks by one cell along its line stays clear where the
/// cell at its new end is free.
proof fn lemma_grow_clear(v: SystemView, start: Cord, lld: LongLinear, unit: LongLinear)
    requires
        v.r <= MAX_SIDE,
        start.in_range(v.r),
        lld.0.long_linear(),
        !v.walk_blocked(start, lld.0),
        unit.0.spec_mlen() == 1,
        merges(lld.0, unit.0),
        !v.blocked(start.offset(lld.0).offset(unit.0)),
    ensures
        !v.walk_blocked(start, joined(lld.0, unit.0)),
        start.offset(joined(lld.0, unit.0)) == start.offset(lld.0).offset(unit.0),
        start.offset(lld.0).in_range(v.r),
{
    let j = joined(lld.0, unit.0);
    lemma_along(start, lld.0, lld.0.spec_clen());
    assert(!v.blocked(along(start, lld.0, lld.0.spec_clen())));
    assert forall|k: int| 1 <= k <= j.spec_clen() implies !v.blocked(#[trigger] along(start, j, k)) by {
        lemma_along(start, j, k);
        if k <= lld.0.spec_clen() {
            assert(along(start, j, k) == along(start, lld.0, k));
            assert(!v.blocked(along(start, lld.0, k)));
        } else {
            assert(along(start, j, k) == start.offset(j));
        }
    }
}

/// The first pass leaves a first move that is clear, and a second one, if there is one, that
/// is clear from where the first one ends.
proof fn lemma_fold_clear(v: SystemView, start: Cord, lld: LongLinear, rest: Seq<Cmd>)
    requires
        v.r <= MAX_SIDE,
        start.in_range(v.r),
        lld.0.long_linear(),
        !v.walk_blocked(start, lld.0),
        free_steps(v, start.offset(lld.0), rest),
    ensures
        ({
            let out = fold_smove(Cmd::SMove(lld), rest);
            &&& out.len() >= 1
            &&& out[0] matches Cmd::SMove(l0)
            &&& l0.0.long_linear()
            &&& !v.walk_blocked(start, l0.0)
            &&& start.offset(l0.0).in_range(v.r)
            &&& out.len() >= 2 ==> (out[1] matches Cmd::SMove(l1) && l1.0.long_linear()
                && !v.walk_blocked(start.offset(l0.0), l1.0))
        }),
    decreases rest.len(),
{
    let out = fold_smove(Cmd::SMove(lld), rest);
    lemma_along(start, lld.0, lld.0.spec_clen());
    assert(!v.blocked(along(start, lld.0, lld.0.spec_clen())));
    let end = start.offset(lld.0);
    if rest.len() == 0 {
        assert(out =~= seq![Cmd::SMove(lld)]);
    } else {
        let unit = rest[0]->SMove_0;
        let tail = rest.drop_first();
        assert(rest[0] == Cmd::SMove(unit));
        assert(step_to(end, rest[0]) == end.offset(unit.0));
        if merges(lld.0, unit.0) {
            lemma_grow_clear(v, start, lld, unit);
            lemma_fold_clear(v, start, LongLinear(joined(lld.0, unit.0)), tail);
            assert(out == fold_smove(Cmd::SMove(LongLinear(joined(lld.0, unit.0))), tail));
        } else {
            assert forall|k: int| 1 <= k <= unit.0.spec_clen() implies !v.blocked(
                #[trigger] along(end, unit.0, k),
            ) by {
                lemma_along(end, unit.0, k);
            }
            lemma_fold_clear(v, end, unit, tail);
            let sub = fold_smove(rest[0], tail);
            assert(out == seq![Cmd::SMove(lld)] + sub);
            assert(out[0] == Cmd::SMove(lld));
            assert(out[1] == sub[0]);
        }
    }
}

/// The first command of the compressed moves of a walk over free voxels does not
/// interfere when the bot that stands at the start of the walk carries it out.
pub proof fn lemma_compressed_clear(v: SystemView, from: Cord, units: Seq<Cmd>)
    requires
        v.r <= MAX_SIDE,
        from.in_range(v.r),
        free_walk(v, from, units),
        units.len() > 0,
    ensures
        compressed(units).len() > 0,
        !move_blocked(v, from, compressed(units)[0]),
{
    lemma_walk_steps(v, from, units);
    let first = units[0]->SMove_0;
    assert(units[0] == Cmd::SMove(first));
    let tail = units.drop_first();
    assert(step_to(from, units[0]) == from.offset(first.0));
    assert forall|k: int| 1 <= k <= first.0.spec_clen() implies !v.blocked(
        #[trigger] along(from, first.0, k),
    ) by {
        lemma_along(from, first.0, k);
    }
    lemma_fold_clear(v, from, first, tail);
    let once = smove_compressed(units);
    assert(once == fold_smove(units[0], tail));
    let l0 = once[0]->SMove_0;
    let both = lmove_compressed(once);
    assert(both == fold_lmove(once[0], once.drop_first()));
    if once.len() >= 2 {
        let l1 = once[1]->SMove_0;
        let rest = once.drop_first();
        assert(rest[0] == once[1]);
        if turns(l0.0, l1.0) {
            let corner = Cmd::LMove(ShortLinear(l0.0), ShortLinear(l1.0));
            assert(both == fold_lmove(corner, rest.drop_first()));
            lemma_corner_first(corner, rest.drop_first());
        } else {
            assert(both == seq![once[0]] + fold_lmove(rest[0], rest.drop_first()));
            assert(both[0] == once[0]);
        }
    } else {
        assert(once.drop_first() =~= Seq::<Cmd>::empty());
        assert(both =~= seq![once[0]]);
    }
}

/// The second pass leaves a move round a corner as it is.
proof fn lemma_corner_first(corner: Cmd, rest: Seq<Cmd>)
    requires
        corner is LMove,
    ensures
        fold_lmove(corner, rest).len() > 0,
        fold_lmove(corner, rest)[0] == corner,
{
    if rest.len() == 0 {
        assert(fold_lmove(corner, rest) =~= seq![corner]);
    } else {
        assert(fold_lmove(corner, rest) == seq![corner] + fold_lmove(rest[0], rest.drop_first()));
    }
}

/// Whether none of the moves `cmds`, carried out one after the other by a bot that stands at
/// `from`, runs into the grid's border, into a full voxel or into a voxel that the step has
/// claimed.
pub open spec fn moves_clear(v: SystemView, from: Cord, cmds: Seq<Cmd>) -> bool
    decreases cmds.len(),
{
    cmds.len() == 0 || (!move_blocked(v, from, cmds[0]) && moves_clear(
        v,
        step_to(from, cmds[0]),
        cmds.drop_first(),
    ))
}

/// The number of cells that a move takes the bot.
pub open spec fn cmd_steps(cmd: Cmd) -> int {
    match cmd {
        Cmd::SMove(lld) => lld.0.spec_mlen(),
        Cmd::LMove(sld1, sld2) => sld1.0.spec_mlen() + sld2.0.spec_mlen(),
        _ => 0,
    }
}

/// The number of cells that the moves take the bot, all in all.
pub open spec fn steps_of(cmds: Seq<Cmd>) -> int
    decreases cmds.len(),
{
    if cmds.len() == 0 {
        0
    } else {
        cmd_steps(cmds[0]) + steps_of(cmds.drop_first())
    }
}

/// Whether the second move takes back what the first has done.
pub open spec fn opposite(a: Cmd, b: Cmd) -> bool {
    cmd_shift(a).plus(cmd_shift(b)) == Shift::zero()
}

/// No move takes back what the move before it has done.
pub open spec fn no_turn_back(units: Seq<Cmd>) -> bool {
    forall|i: int| 0 <= i < units.len() - 1 ==> !opposite(#[trigger] units[i], units[i + 1])
}

/// A move that is not blocked ends in the grid, where its displacements lead.
proof fn lemma_move_end(v: SystemView, from: Cord, cmd: Cmd)
    requires
        v.r <= MAX_SIDE,
        from.in_range(v.r),
        is_move(cmd),
        !move_blocked(v, from, cmd),
    ensures
        step_to(from, cmd).in_range(v.r),
        cmd matches Cmd::SMove(lld) ==> step_to(from, cmd) == from.offset(lld.0),
        cmd matches Cmd::LMove(sld1, sld2) ==> from.offset(sld1.0).in_range(v.r) && step_to(
            from,
            cmd,
        ) == from.offset(sld1.0).offset(sld2.0),
{
    match cmd {
        Cmd::SMove(lld) => {
            lemma_walk_end(v, from, lld.0);
        },
        Cmd::LMove(sld1, sld2) => {
            lemma_walk_end(v, from, sld1.0);
            lemma_walk_end(v, from.offset(sld1.0), sld2.0);
        },
        _ => {},
    }
}

/// The first pass leaves moves none of which is blocked.
proof fn lemma_fold_smove_clear(v: SystemView, start: Cord, lld: LongLinear, rest: Seq<Cmd>)
    requires
        v.r <= MAX_SIDE,
        start.in_range(v.r),
        lld.0.long_linear(),
        !v.walk_blocked(start, lld.0),
        free_steps(v, start.offset(lld.0), rest),
    ensures
        moves_clear(v, start, fold_smove(Cmd::SMove(lld), rest)),
    decreases rest.len(),
{
    let out = fold_smove(Cmd::SMove(lld), rest);
    lemma_walk_end(v, start, lld.0);
    let end = start.offset(lld.0);
    assert(step_to(start, Cmd::SMove(lld)) == end);
    if rest.len() == 0 {
        assert(out =~= seq![Cmd::SMove(lld)]);
        assert(out.drop_first() =~= Seq::<Cmd>::empty());
        assert(moves_clear(v, end, out.drop_first()));
        assert(moves_clear(v, start, out));
    } else {
        let unit = rest[0]->SMove_0;
        let tail = rest.drop_first();
        assert(rest[0] == Cmd::SMove(unit));
        assert(step_to(end, rest[0]) == end.offset(unit.0));
        if merges(lld.0, unit.0) {
            lemma_grow_clear(v, start, lld, unit);
            lemma_fold_smove_clear(v, start, LongLinear(joined(lld.0, unit.0)), tail);
            assert(out == fold_smove(Cmd::SMove(LongLinear(joined(lld.0, unit.0))), tail));
        } else {
            assert forall|k: int| 1 <= k <= unit.0.spec_clen() implies !v.blocked(
                #[trigger] along(end, unit.0, k),
            ) by {
                lemma_along(end, unit.0, k);
            }
            lemma_fold_smove_clear(v, end, unit, tail);
            let sub = fold_smove(rest[0], tail);
            assert(out == seq![Cmd::SMove(lld)] + sub);
            assert(out[0] == Cmd::SMove(lld));
            assert(out.drop_first() =~= sub);
            assert(moves_clear(v, end, sub));
            assert(moves_clear(v, start, out));
        }
    }
}

/// The second pass leaves moves none of which is blocked.
proof fn lemma_fold_lmove_clear(v: SystemView, from: Cord, prev: Cmd, rest: Seq<Cmd>)
    requires
        v.r <= MAX_SIDE,
        from.in_range(v.r),
        is_move(prev),
        forall|k: int| 0 <= k < rest.len() ==> is_straight(#[trigger] rest[k]),
        moves_clear(v, from, seq![prev] + rest),
    ensures
        moves_clear(v, from, fold_lmove(prev, rest)),
    decreases rest.len(),
{
    let all = seq![prev] + rest;
    let out = fold_lmove(prev, rest);
    assert(all[0] == prev);
    assert(all.drop_first() =~= rest);
    let next = step_to(from, prev);
    assert(!move_blocked(v, from, prev) && moves_clear(v, next, rest));
    lemma_move_end(v, from, prev);
    if rest.len() == 0 {
        assert(out =~= seq![prev]);
        assert(out.drop_first() =~= Seq::<Cmd>::empty());
        assert(moves_clear(v, from, out));
    } else {
        let tail = rest.drop_first();
        let l2 = rest[0]->SMove_0;
        assert(is_straight(rest[0]));
        assert(rest[0] == Cmd::SMove(l2));
        assert forall|k: int| 0 <= k < tail.len() implies is_straight(#[trigger] tail[k]) by {
            assert(tail[k] == rest[k + 1]);
        }
        assert(!move_blocked(v, next, rest[0]) && moves_clear(v, step_to(next, rest[0]), tail));
        lemma_move_end(v, next, rest[0]);
        if prev is SMove && turns(prev->SMove_0.0, l2.0) {
            let l1 = prev->SMove_0;
            let corner = Cmd::LMove(ShortLinear(l1.0), ShortLinear(l2.0));
            assert(prev == Cmd::SMove(l1));
            assert(out == fold_lmove(corner, tail));
            let joint = seq![corner] + tail;
            assert(joint[0] == corner);
            assert(joint.drop_first() =~= tail);
            assert(!move_blocked(v, from, corner));
            assert(step_to(from, corner) == step_to(next, rest[0]));
            assert(moves_clear(v, step_to(from, corner), joint.drop_first()));
            assert(moves_clear(v, from, joint));
            lemma_fold_lmove_clear(v, from, corner, tail);
        } else {
            let again = seq![rest[0]] + tail;
            assert(again =~= rest);
            lemma_fold_lmove_clear(v, next, rest[0], tail);
            let sub = fold_lmove(rest[0], tail);
            assert(out == seq![prev] + sub);
            assert(out[0] == prev);
            assert(out.drop_first() =~= sub);
            assert(moves_clear(v, next, sub));
            assert(moves_clear(v, from, out));
        }
    }
}

/// None of the compressed moves of a walk over free voxels is blocked when the bot that
/// stands at the start of the walk carries them out one after the other.
pub proof fn lemma_compressed_all_clear(v: SystemView, from: Cord, units: Seq<Cmd>)
    requires
        v.r <= MAX_SIDE,
        from.in_range(v.r),
        free_walk(v, from, units),
    ensures
        moves_clear(v, from, compressed(units)),
{
    if units.len() > 0 {
        lemma_walk_steps(v, from, units);
        crate::search::lemma_walk_units(v, from, units);
        lemma_compressed_valid(units);
        let first = units[0]->SMove_0;
        assert(units[0] == Cmd::SMove(first));
        let tail = units.drop_first();
        assert(step_to(from, units[0]) == from.offset(first.0));
        assert forall|k: int| 1 <= k <= first.0.spec_clen() implies !v.blocked(
            #[trigger] along(from, first.0, k),
        ) by {
            lemma_along(from, first.0, k);
        }
        lemma_fold_smove_clear(v, from, first, tail);
        let once = smove_compressed(units);
        assert(once == fold_smove(units[0], tail));
        lemma_fold_clear(v, from, first, tail);
        let rest = once.drop_first();
        assert forall|k: int| 0 <= k < rest.len() implies is_straight(#[trigger] rest[k]) by {
            assert(rest[k] == once[k + 1]);
        }
        assert(seq![once[0]] + rest =~= once);
        lemma_fold_lmove_clear(v, from, once[0], rest);
    }
}

/// The first pass leaves moves that take the bot as many cells as the unit moves did, where
/// no unit move takes back what the one before it has done.
proof fn lemma_fold_smove_steps(lld: LongLinear, rest: Seq<Cmd>)
    requires
        lld.0.long_linear(),
        forall|k: int| 0 <= k < rest.len() ==> is_unit_move(#[trigger] rest[k]),
        no_turn_back(rest),
        rest.len() > 0 ==> !opposite(Cmd::SMove(LongLinear(lld.0.unit())), rest[0]),
    ensures
        steps_of(fold_smove(Cmd::SMove(lld), rest)) == lld.0.spec_mlen() + rest.len(),
    decreases rest.len(),
{
    let out = fold_smove(Cmd::SMove(lld), rest);
    if rest.len() == 0 {
        assert(out =~= seq![Cmd::SMove(lld)]);
        assert(out.drop_first() =~= Seq::<Cmd>::empty());
        assert(steps_of(out.drop_first()) == 0);
    } else {
        let unit = rest[0]->SMove_0;
        let tail = rest.drop_first();
        assert(is_unit_move(rest[0]));
        assert(rest[0] == Cmd::SMove(unit));
        assert forall|k: int| 0 <= k < tail.len() implies is_unit_move(#[trigger] tail[k]) by {
            assert(tail[k] == rest[k + 1]);
        }
        assert(no_turn_back(tail)) by {
            assert forall|i: int| 0 <= i < tail.len() - 1 implies !opposite(
                #[trigger] tail[i],
                tail[i + 1],
            ) by {
                assert(tail[i] == rest[i + 1]);
                assert(tail[i + 1] == rest[i + 2]);
                assert(!opposite(rest[i + 1], rest[i + 2]));
            }
        }
        if tail.len() > 0 {
            assert(tail[0] == rest[1]);
            assert(!opposite(rest[0], rest[1]));
        }
        if merges(lld.0, unit.0) {
            let j = joined(lld.0, unit.0);
            assert(unit.0 == lld.0.unit());
            assert(j.unit() == lld.0.unit());
            assert(j.spec_mlen() == lld.0.spec_mlen() + 1);
            lemma_fold_smove_steps(LongLinear(j), tail);
            assert(out == fold_smove(Cmd::SMove(LongLinear(j)), tail));
        } else {
            assert(unit.0.unit() == unit.0);
            lemma_fold_smove_steps(unit, tail);
            let sub = fold_smove(rest[0], tail);
            assert(out == seq![Cmd::SMove(lld)] + sub);
            assert(out[0] == Cmd::SMove(lld));
            assert(out.drop_first() =~= sub);
        }
    }
}

/// The second pass leaves moves that take the bot as many cells as the moves before it did.
proof fn lemma_fold_lmove_steps(prev: Cmd, rest: Seq<Cmd>)
    ensures
        steps_of(fold_lmove(prev, rest)) == cmd_steps(prev) + steps_of(rest),
    decreases rest.len(),
{
    let out = fold_lmove(prev, rest);
    if rest.len() == 0 {
        assert(out =~= seq![prev]);
        assert(out.drop_first() =~= Seq::<Cmd>::empty());
        assert(steps_of(out.drop_first()) == 0);
    } else {
        let tail = rest.drop_first();
        match (prev, rest[0]) {
            (Cmd::SMove(lld1), Cmd::SMove(lld2)) if turns(lld1.0, lld2.0) => {
                lemma_fold_lmove_steps(Cmd::LMove(ShortLinear(lld1.0), ShortLinear(lld2.0)), tail);
            },
            _ => {
                lemma_fold_lmove_steps(rest[0], tail);
                let sub = fold_lmove(rest[0], tail);
                assert(out == seq![prev] + sub);
                assert(out[0] == prev);
                assert(out.drop_first() =~= sub);
            },
        }
    }
}

/// The compressed moves of unit moves, none of which takes back what the one before it has
/// done, take the bot as many cells as there are unit moves.
pub proof fn lemma_compressed_steps(units: Seq<Cmd>)
    requires
        forall|k: int| 0 <= k < units.len() ==> is_unit_move(#[trigger] units[k]),
        no_turn_back(units),
    ensures
        steps_of(compressed(units)) == units.len(),
{
    if units.len() > 0 {
        let first = units[0]->SMove_0;
        assert(is_unit_move(units[0]));
        assert(units[0] == Cmd::SMove(first));
        let tail = units.drop_first();
        assert forall|k: int| 0 <= k < tail.len() implies is_unit_move(#[trigger] tail[k]) by {
            assert(tail[k] == units[k + 1]);
        }
        assert(no_turn_back(tail)) by {
            assert forall|i: int| 0 <= i < tail.len() - 1 implies !opposite(
                #[trigger] tail[i],
                tail[i + 1],
            ) by {
                assert(tail[i] == units[i + 1]);
                assert(tail[i + 1] == units[i + 2]);
                assert(!opposite(units[i + 1], units[i + 2]));
            }
        }
        if tail.len() > 0 {
            assert(tail[0] == units[1]);
            assert(!opposite(units[0], units[1]));
        }
        assert(first.0.unit() == first.0);
        lemma_fold_smove_steps(first, tail);
        let once = smove_compressed(units);
        assert(once == fold_smove(units[0], tail));
        assert(once.len() > 0) by {
            assert forall|k: int| 0 <= k < units.len() implies is_straight(#[trigger] units[k]) by {
                assert(is_unit_move(units[k]));
            }
            lemma_compressed_valid(units);
            if once.len() == 0 {
                assert(compressed(units) =~= once);
            }
        }
        lemma_fold_lmove_steps(once[0], once.drop_first());
    }
}

} // verus!
