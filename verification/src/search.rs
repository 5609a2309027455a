use crate::bot::Cmd;
use crate::clear::{
    lemma_compressed_all_clear, lemma_compressed_clear, lemma_compressed_steps, move_blocked,
    moves_clear, no_turn_back, opposite, steps_of,
};
use crate::error::NanoBotError;
use crate::geometry::{
    adjacent, Cord, CordDiff, face_diffs, lemma_adjacent_step, lemma_face_diffs, lemma_near_diffs,
    LongLinear, near_diffs,
};
use crate::grid::{
    count_set, flag_at, flags_get, flags_new, flags_set, flags_wf, lemma_count_bound,
    lemma_volume_bound, MAX_SIDE,
};
use crate::laws::lemma_inv_facts;
use crate::moves::{
    chain_units, chain_wf, compressed, displacement, is_move, lemma_compressed_valid,
    lemma_reached_push, link_ok, MoveCmds, MoveStep, MoveToNear, node_at, reached_within,
};
use crate::state::SystemView;
use crate::system::System;
use vstd::prelude::*;

verus! {

/// There is a chain of `n` steps from `from` to `c`, each to a voxel that shares a face with
/// the one before and that is not blocked. The voxel `from` itself may be blocked.
pub open spec fn free_reach(v: SystemView, from: Cord, c: Cord, n: nat) -> bool
    decreases n,
{
    if n == 0 {
        c == from
    } else {
        !v.blocked(c) && exists|p: Cord|
            #[trigger] adjacent(p, c) && free_reach(v, from, p, (n - 1) as nat)
    }
}

/// A straight move of one cell.
pub open spec fn is_unit_move(cmd: Cmd) -> bool {
    cmd matches Cmd::SMove(lld) && lld.0.spec_mlen() == 1
}

/// Where a bot that starts at `from` stands after the moves `cmds`.
pub open spec fn lands(from: Cord, cmds: Seq<Cmd>) -> Cord {
    Cord {
        x: (from.x + displacement(cmds).x) as i32,
        y: (from.y + displacement(cmds).y) as i32,
        z: (from.z + displacement(cmds).z) as i32,
    }
}

/// Each of the moves `units` is a move of one cell, and none of them, carried out from
/// `from` in their order, ends on a blocked voxel.
pub open spec fn free_walk(v: SystemView, from: Cord, units: Seq<Cmd>) -> bool
    decreases units.len(),
{
    units.len() == 0 || (free_walk(v, from, units.drop_last()) && is_unit_move(units.last())
        && !v.blocked(lands(from, units)))
}

/// What the search knows of the cells that it has reached so far.
#[verifier::opaque]
spec fn route_inv(v: SystemView, from: Cord, steps: Seq<MoveStep>, visited: Seq<bool>) -> bool {
    &&& flags_wf(visited, v.r)
    &&& count_set(visited) == steps.len()
    &&& steps.len() >= 1
    &&& steps[0] == (MoveStep { len: 0, c: from, prev: None })
    &&& chain_wf(steps)
    &&& forall|i: int|
        0 <= i < steps.len() ==> {
            &&& (#[trigger] steps[i]).c.in_range(v.r)
            &&& steps[i].len <= i
            &&& free_reach(v, from, steps[i].c, steps[i].len as nat)
            &&& (i > 0 ==> !v.blocked(steps[i].c) && steps[i].prev is Some)
        }
    &&& forall|c: Cord| c.in_range(v.r) ==> flag_at(visited, v.r, c) == node_at(steps, c)
    &&& forall|i: int, j: int| 0 <= i <= j < steps.len() ==> steps[i].len <= steps[j].len
    &&& forall|i: int, j: int| 0 <= i < j < steps.len() ==> steps[i].c != steps[j].c
}

/// Every free voxel next to one of the first `head` reached cells has been reached too, in
/// at most one step more.
spec fn neighbours_reached(v: SystemView, steps: Seq<MoveStep>, head: int) -> bool {
    forall|i: int, p: Cord|
        0 <= i < head && #[trigger] adjacent(steps[i].c, p) && !v.blocked(p) ==> reached_within(
            steps,
            p,
            steps[i].len + 1,
        )
}

/// Whatever a chain of at most `depth` steps leads to has been reached in no more steps.
spec fn level_reached(v: SystemView, from: Cord, steps: Seq<MoveStep>, depth: int) -> bool {
    forall|c: Cord, n: nat|
        n <= depth && #[trigger] free_reach(v, from, c, n) ==> reached_within(steps, c, n as int)
}

/// Once every reached cell has had its neighbours looked at, whatever a chain of `n` steps
/// leads to has been reached in at most `n` steps.
proof fn lemma_search_complete(
    v: SystemView,
    from: Cord,
    steps: Seq<MoveStep>,
    c: Cord,
    n: nat,
)
    requires
        steps.len() >= 1,
        steps[0].c == from,
        steps[0].len == 0,
        neighbours_reached(v, steps, steps.len() as int),
        free_reach(v, from, c, n),
    ensures
        reached_within(steps, c, n as int),
    decreases n,
{
    if n > 0 {
        let p = choose|p: Cord|
            #[trigger] adjacent(p, c) && free_reach(v, from, p, (n - 1) as nat);
        lemma_search_complete(v, from, steps, p, (n - 1) as nat);
        let j = choose|j: int| 0 <= j < steps.len() && steps[j].c == p && steps[j].len <= n - 1;
        assert(adjacent(steps[j].c, c));
        assert(reached_within(steps, c, steps[j].len + 1));
        let j2 = choose|j2: int|
            0 <= j2 < steps.len() && steps[j2].c == c && steps[j2].len <= steps[j].len + 1;
        assert(steps[j2].len <= n);
    }
}

/// When the cells of one depth have all had their neighbours looked at, whatever a chain
/// of one step more leads to has been reached.
proof fn lemma_next_level(v: SystemView, from: Cord, steps: Seq<MoveStep>, head: int, depth: int)
    requires
        0 <= head < steps.len(),
        level_reached(v, from, steps, depth),
        neighbours_reached(v, steps, head),
        forall|i: int, j: int| 0 <= i <= j < steps.len() ==> steps[i].len <= steps[j].len,
        steps[head].len == depth + 1,
        depth >= 0,
    ensures
        level_reached(v, from, steps, depth + 1),
{
    assert forall|c: Cord, n: nat| n <= depth + 1 && #[trigger] free_reach(
        v,
        from,
        c,
        n,
    ) implies reached_within(steps, c, n as int) by {
        if n == depth + 1 {
            let p = choose|p: Cord|
                #[trigger] adjacent(p, c) && free_reach(v, from, p, (n - 1) as nat);
            assert(reached_within(steps, p, depth));
            let j = choose|j: int| 0 <= j < steps.len() && steps[j].c == p && steps[j].len <= depth;
            if j >= head {
                assert(steps[head].len <= steps[j].len);
            }
            assert(adjacent(steps[j].c, c));
            assert(reached_within(steps, c, steps[j].len + 1));
            let j2 = choose|j2: int|
                0 <= j2 < steps.len() && steps[j2].c == c && steps[j2].len <= steps[j].len + 1;
            assert(steps[j2].len <= n);
        }
    }
}

/// The moves that lead to a reached cell are moves of one cell over free voxels, and they
/// end on that cell.
pub proof fn lemma_chain_walk(v: SystemView, from: Cord, steps: Seq<MoveStep>, i: int)
    requires
        chain_wf(steps),
        0 <= i < steps.len(),
        v.r <= MAX_SIDE,
        from.in_range(v.r),
        forall|k: int|
            0 <= k < steps.len() ==> (#[trigger] steps[k]).c.in_range(v.r) && (steps[k].prev is None
                ==> steps[k].c == from) && (steps[k].prev is Some ==> !v.blocked(steps[k].c)),
    ensures
        free_walk(v, from, chain_units(steps, i)),
        lands(from, chain_units(steps, i)) == steps[i].c,
        displacement(chain_units(steps, i)) == (crate::moves::Shift {
            x: steps[i].c.x - from.x,
            y: steps[i].c.y - from.y,
            z: steps[i].c.z - from.z,
        }),
    decreases i,
{
    let units = chain_units(steps, i);
    assert(steps[i].c.in_range(v.r));
    assert(link_ok(steps, i));
    match steps[i].prev {
        Some(p) => {
            assert(p < i);
            assert(steps[p as int].c.in_range(v.r));
            lemma_chain_walk(v, from, steps, p as int);
            let before = chain_units(steps, p as int);
            let d = steps[i].c.diff_from(steps[p as int].c);
            let unit = Cmd::SMove(LongLinear(d));
            assert(units == before.push(unit));
            assert(units.drop_last() =~= before);
            assert(units.last() == unit);
            assert(adjacent(steps[p as int].c, steps[i].c));
            assert(d.spec_mlen() == 1);
            crate::moves::lemma_displacement_push(before, unit);
            assert(lands(from, units) == steps[i].c);
            assert(!v.blocked(steps[i].c));
        },
        None => {
            assert(units =~= Seq::<Cmd>::empty());
        },
    }
}

/// The moves that lead to a cell of a list that holds no cell twice are moves of one cell,
/// and none of them takes back what the one before it has done.
pub proof fn lemma_chain_forward(steps: Seq<MoveStep>, i: int)
    requires
        chain_wf(steps),
        0 <= i < steps.len(),
        forall|a: int, b: int| 0 <= a < b < steps.len() ==> steps[a].c != steps[b].c,
    ensures
        no_turn_back(chain_units(steps, i)),
        forall|k: int|
            0 <= k < chain_units(steps, i).len() ==> is_unit_move(
                #[trigger] chain_units(steps, i)[k],
            ),
        steps[i].prev matches Some(p) ==> chain_units(steps, i).len() > 0 && chain_units(
            steps,
            i,
        ).last() == Cmd::SMove(LongLinear(steps[i].c.diff_from(steps[p as int].c))),
    decreases i,
{
    let units = chain_units(steps, i);
    assert(link_ok(steps, i));
    match steps[i].prev {
        Some(p) => {
            assert(link_ok(steps, p as int));
            lemma_chain_forward(steps, p as int);
            let before = chain_units(steps, p as int);
            let d = steps[i].c.diff_from(steps[p as int].c);
            let unit = Cmd::SMove(LongLinear(d));
            assert(units == before.push(unit));
            assert(d.spec_mlen() == 1);
            assert forall|k: int| 0 <= k < units.len() implies is_unit_move(#[trigger] units[k]) by {
                if k < before.len() {
                    assert(units[k] == before[k]);
                }
            }
            assert forall|k: int| 0 <= k < units.len() - 1 implies !opposite(
                #[trigger] units[k],
                units[k + 1],
            ) by {
                assert(units[k] == before[k]);
                if k + 1 < before.len() {
                    assert(units[k + 1] == before[k + 1]);
                    assert(!opposite(before[k], before[k + 1]));
                } else {
                    let g = steps[p as int].prev->0;
                    assert(steps[g as int].c != steps[i].c);
                    assert(steps[g as int].c.in_range(MAX_SIDE as int)) by {
                        assert(link_ok(steps, g as int));
                    }
                }
            }
        },
        None => {
            assert(units =~= Seq::<Cmd>::empty());
        },
    }
}

/// Takes the unvisited free voxel `c`, reached from the cell at `prev`, into the search.
fn visit(
    sys: &System,
    Ghost(from): Ghost<Cord>,
    steps: &mut Vec<MoveStep>,
    visited: &mut Vec<bool>,
    c: Cord,
    prev: usize,
)
    requires
        sys.wf(),
        route_inv(sys@, from, old(steps)@, old(visited)@),
        prev < old(steps).len(),
        adjacent(old(steps)[prev as int].c, c),
        !sys@.blocked(c),
        !flag_at(old(visited)@, sys@.r, c),
        forall|j: int| 0 <= j < old(steps).len() ==> old(steps)[j].len <= old(steps)[prev as int].len + 1,
    ensures
        route_inv(sys@, from, final(steps)@, final(visited)@),
        final(steps)@ == old(steps)@.push(
            MoveStep { len: (old(steps)[prev as int].len + 1) as usize, c, prev: Some(prev) },
        ),
{
    proof {
        reveal(route_inv);
    }
    let r = sys.matrix.r;
    let len = steps[prev].len + 1;
    let node = MoveStep { len, c, prev: Some(prev) };
    proof {
        lemma_inv_facts(sys@);
        assert(free_reach(sys@, from, c, len as nat)) by {
            assert(adjacent(steps[prev as int].c, c));
        }
    }
    flags_set(visited, r, c, true);
    steps.push(node);
    proof {
        let v = sys@;
        let n0 = old(steps)@;
        let n1 = steps@;
        assert forall|i: int| 0 <= i < n1.len() implies #[trigger] link_ok(n1, i) by {
            if i < n0.len() {
                assert(link_ok(n0, i));
                assert(n1[i] == n0[i]);
                match n0[i].prev {
                    Some(p) => {
                        assert(n1[p as int] == n0[p as int]);
                    },
                    None => {},
                }
            } else {
                assert(n1[prev as int] == n0[prev as int]);
            }
        }
        assert forall|i: int| 0 <= i < n1.len() implies {
            &&& (#[trigger] n1[i]).c.in_range(v.r)
            &&& n1[i].len <= i
            &&& free_reach(v, from, n1[i].c, n1[i].len as nat)
            &&& (i > 0 ==> !v.blocked(n1[i].c) && n1[i].prev is Some)
        } by {
            if i < n0.len() {
                assert(n1[i] == n0[i]);
            }
        }
        assert forall|o: Cord| o.in_range(v.r) implies flag_at(visited@, v.r, o) == node_at(
            n1,
            o,
        ) by {
            if o == c {
                assert(n1[n0.len() as int].c == o);
            } else {
                if node_at(n0, o) {
                    let j = choose|j: int| 0 <= j < n0.len() && n0[j].c == o;
                    assert(n1[j].c == o);
                }
                if node_at(n1, o) {
                    let j = choose|j: int| 0 <= j < n1.len() && n1[j].c == o;
                    assert(n0[j].c == o);
                }
            }
        }
        assert forall|i: int, j: int| 0 <= i < j < n1.len() implies n1[i].c != n1[j].c by {
            if j == n0.len() && n1[i].c == c {
                assert(n0[i].c == c);
                assert(node_at(n0, c));
            }
        }
        assert(n1[0] == n0[0]);
    }
}


/// The flags as a property of voxels.
pub open spec fn flagged(bits: Seq<bool>, r: int) -> spec_fn(Cord) -> bool {
    |c: Cord| flag_at(bits, r, c)
}

/// The list with which a search from `from` begins: the cell `from` alone.
pub open spec fn scan_start(from: Cord) -> Seq<MoveStep> {
    seq![MoveStep { len: 0, c: from, prev: None }]
}

/// A search, breadth first: the list of the cells that it has reached when it ends, and
/// the place in the list of the cell of the goal that it has found, if it has found one.
/// The search has `steps` in its list and is about to look, from the cell at place `head`,
/// in the direction `k` of the six. From each cell of the list in turn, unless the cell
/// belongs to the goal, which ends the search, it takes the neighbours that are free and not
/// yet in the list into the list, in the order of the unit steps.
pub open spec fn scan(
    v: SystemView,
    goal: spec_fn(Cord) -> bool,
    steps: Seq<MoveStep>,
    head: int,
    k: int,
) -> (Seq<MoveStep>, Option<int>)
    decreases v.r * v.r * v.r - head, 6 - k,
{
    if head < 0 || head >= steps.len() || head >= v.r * v.r * v.r || k < 0 {
        (steps, None)
    } else if k == 0 && goal(steps[head].c) {
        (steps, Some(head))
    } else if k >= 6 {
        scan(v, goal, steps, head + 1, 0)
    } else {
        let c = steps[head].c.offset(face_diffs()[k]);
        if !v.blocked(c) && !node_at(steps, c) {
            scan(
                v,
                goal,
                steps.push(
                    MoveStep { len: (steps[head].len + 1) as usize, c, prev: Some(head as usize) },
                ),
                head,
                k + 1,
            )
        } else {
            scan(v, goal, steps, head, k + 1)
        }
    }
}

/// What a search from `from` for the goal ends with.
pub open spec fn scan_from(v: SystemView, from: Cord, goal: spec_fn(Cord) -> bool) -> (
    Seq<MoveStep>,
    Option<int>,
) {
    scan(v, goal, scan_start(from), 0, 0)
}

/// A search looks at the goal only in cells of the grid.
pub proof fn lemma_scan_goal(
    v: SystemView,
    g1: spec_fn(Cord) -> bool,
    g2: spec_fn(Cord) -> bool,
    steps: Seq<MoveStep>,
    head: int,
    k: int,
)
    requires
        forall|c: Cord| c.in_range(v.r) ==> g1(c) == g2(c),
        forall|i: int| 0 <= i < steps.len() ==> (#[trigger] steps[i]).c.in_range(v.r),
    ensures
        scan(v, g1, steps, head, k) == scan(v, g2, steps, head, k),
    decreases v.r * v.r * v.r - head, 6 - k,
{
    if head < 0 || head >= steps.len() || head >= v.r * v.r * v.r || k < 0 {
    } else if k == 0 && g1(steps[head].c) {
        assert(steps[head].c.in_range(v.r));
    } else if k == 0 && g2(steps[head].c) {
        assert(steps[head].c.in_range(v.r));
    } else if k >= 6 {
        lemma_scan_goal(v, g1, g2, steps, head + 1, 0);
    } else {
        let c = steps[head].c.offset(face_diffs()[k]);
        if !v.blocked(c) && !node_at(steps, c) {
            let node = MoveStep {
                len: (steps[head].len + 1) as usize,
                c,
                prev: Some(head as usize),
            };
            let more = steps.push(node);
            assert forall|i: int| 0 <= i < more.len() implies (#[trigger] more[i]).c.in_range(
                v.r,
            ) by {
                if i < steps.len() {
                    assert(more[i] == steps[i]);
                }
            }
            lemma_scan_goal(v, g1, g2, more, head, k + 1);
        } else {
            lemma_scan_goal(v, g1, g2, steps, head, k + 1);
        }
    }
}

/// The search goes on with the next direction, and with the neighbour in its list where the
/// neighbour is free and new.
proof fn lemma_scan_side(
    v: SystemView,
    goal: spec_fn(Cord) -> bool,
    steps: Seq<MoveStep>,
    head: int,
    k: int,
)
    requires
        0 <= head < steps.len(),
        head < v.r * v.r * v.r,
        0 <= k < 6,
        !goal(steps[head].c),
    ensures
        scan(v, goal, steps, head, k) == (if !v.blocked(steps[head].c.offset(face_diffs()[k]))
            && !node_at(steps, steps[head].c.offset(face_diffs()[k])) {
            scan(
                v,
                goal,
                steps.push(
                    MoveStep {
                        len: (steps[head].len + 1) as usize,
                        c: steps[head].c.offset(face_diffs()[k]),
                        prev: Some(head as usize),
                    },
                ),
                head,
                k + 1,
            )
        } else {
            scan(v, goal, steps, head, k + 1)
        }),
{
}

/// Where the list holds a cell, the cell has been visited, and the other way round.
proof fn lemma_route_visited(
    v: SystemView,
    from: Cord,
    steps: Seq<MoveStep>,
    visited: Seq<bool>,
    c: Cord,
)
    requires
        route_inv(v, from, steps, visited),
        c.in_range(v.r),
    ensures
        flag_at(visited, v.r, c) == node_at(steps, c),
{
    reveal(route_inv);
}

/// What a search that ends at the cell at position `at` has found: a cell of the goal, with
/// the moves that lead to it over free voxels, and no cell of the goal is reached in fewer
/// steps.
pub open spec fn found(
    v: SystemView,
    from: Cord,
    goal: Seq<bool>,
    steps: Seq<MoveStep>,
    at: int,
) -> bool {
    &&& chain_wf(steps)
    &&& 0 <= at < steps.len()
    &&& steps[at].c.in_range(v.r)
    &&& flag_at(goal, v.r, steps[at].c)
    &&& free_walk(v, from, chain_units(steps, at))
    &&& lands(from, chain_units(steps, at)) == steps[at].c
    &&& chain_units(steps, at).len() == steps[at].len
    &&& forall|k: int|
        0 <= k < chain_units(steps, at).len() ==> crate::moves::is_straight(
            #[trigger] chain_units(steps, at)[k],
        )
    &&& forall|c: Cord, n: nat|
        #[trigger] free_reach(v, from, c, n) && flag_at(goal, v.r, c) ==> steps[at].len <= n
    &&& moves_clear(v, from, compressed(chain_units(steps, at)))
    &&& steps_of(compressed(chain_units(steps, at))) == steps[at].len
}

/// No voxel of the goal can be reached from `from` over free voxels.
pub open spec fn out_of_reach(v: SystemView, from: Cord, goal: Seq<bool>) -> bool {
    forall|c: Cord, n: nat| #[trigger] free_reach(v, from, c, n) ==> !flag_at(goal, v.r, c)
}

/// No reached cell before position `head` belongs to the goal.
spec fn none_before(v: SystemView, steps: Seq<MoveStep>, goal: Seq<bool>, head: int) -> bool {
    forall|i: int| 0 <= i < head && i < steps.len() ==> !flag_at(goal, v.r, (#[trigger] steps[i]).c)
}

/// No reached cell counts more than one step more than the cell at `head`.
spec fn one_ahead(steps: Seq<MoveStep>, bound: int) -> bool {
    forall|j: int| 0 <= j < steps.len() ==> (#[trigger] steps[j]).len <= bound + 1
}

/// The neighbours of `at` in the first `k` directions are reached, where they are free.
spec fn sides_reached(v: SystemView, steps: Seq<MoveStep>, at: Cord, bound: int, k: int) -> bool {
    forall|q: int|
        0 <= q < k && !v.blocked(at.offset(#[trigger] face_diffs()[q])) ==> reached_within(
            steps,
            at.offset(face_diffs()[q]),
            bound + 1,
        )
}

proof fn lemma_route_start(v: SystemView, from: Cord, steps: Seq<MoveStep>, visited: Seq<bool>)
    requires
        v.inv(),
        from.in_range(v.r),
        steps =~= seq![MoveStep { len: 0, c: from, prev: None }],
        flags_wf(visited, v.r),
        count_set(visited) == 1,
        flag_at(visited, v.r, from),
        forall|o: Cord| o.in_range(v.r) && o != from ==> !flag_at(visited, v.r, o),
    ensures
        route_inv(v, from, steps, visited),
        neighbours_reached(v, steps, 0),
        level_reached(v, from, steps, 0),
        one_ahead(steps, 0),
        forall|goal: Seq<bool>| none_before(v, steps, goal, 0),
{
    reveal(route_inv);
    lemma_inv_facts(v);
    assert(link_ok(steps, 0));
    assert forall|c: Cord| c.in_range(v.r) implies flag_at(visited, v.r, c) == node_at(
        steps,
        c,
    ) by {
        if c == from {
            assert(steps[0].c == c);
        }
    }
    assert forall|c: Cord, n: nat| n <= 0 && #[trigger] free_reach(
        v,
        from,
        c,
        n,
    ) implies reached_within(steps, c, n as int) by {
        assert(steps[0].c == c);
    }
}

proof fn lemma_route_cell(
    v: SystemView,
    from: Cord,
    steps: Seq<MoveStep>,
    visited: Seq<bool>,
    i: int,
)
    requires
        v.inv(),
        route_inv(v, from, steps, visited),
        0 <= i < steps.len(),
    ensures
        steps[i].c.in_range(v.r),
        flags_wf(visited, v.r),
        steps.len() <= v.r * v.r * v.r,
        v.r * v.r * v.r <= 16581375,
        steps[i].len <= i,
{
    reveal(route_inv);
    lemma_inv_facts(v);
    lemma_count_bound(visited);
    lemma_volume_bound(v.r);
}

proof fn lemma_found(
    v: SystemView,
    from: Cord,
    goal: Seq<bool>,
    steps: Seq<MoveStep>,
    visited: Seq<bool>,
    head: int,
)
    requires
        v.inv(),
        from.in_range(v.r),
        route_inv(v, from, steps, visited),
        0 <= head < steps.len(),
        level_reached(v, from, steps, steps[head].len as int),
        none_before(v, steps, goal, head),
        flag_at(goal, v.r, steps[head].c),
    ensures
        found(v, from, goal, steps, head),
{
    reveal(route_inv);
    lemma_inv_facts(v);
    let s = steps;
    assert forall|k: int| 0 <= k < s.len() implies (#[trigger] s[k]).c.in_range(v.r) && (
    s[k].prev is None ==> s[k].c == from) && (s[k].prev is Some ==> !v.blocked(s[k].c)) by {
        if k != 0 {
            assert(s[k].prev is Some);
        }
    }
    lemma_chain_walk(v, from, s, head);
    crate::moves::lemma_chain_units(s, head);
    assert forall|c: Cord, n: nat| #[trigger] free_reach(v, from, c, n) && flag_at(
        goal,
        v.r,
        c,
    ) implies s[head].len <= n by {
        if n < s[head].len {
            assert(reached_within(s, c, n as int));
            let j = choose|j: int| 0 <= j < s.len() && s[j].c == c && s[j].len <= n;
            if j >= head {
                assert(s[head].len <= s[j].len);
            }
            assert(!flag_at(goal, v.r, s[j].c));
        }
    }
    lemma_compressed_all_clear(v, from, chain_units(s, head));
    lemma_chain_forward(s, head);
    lemma_compressed_steps(chain_units(s, head));
}

/// What one look at a neighbour of the cell at `head` leaves behind.
proof fn lemma_side_done(
    v: SystemView,
    from: Cord,
    n0: Seq<MoveStep>,
    n1: Seq<MoveStep>,
    visited0: Seq<bool>,
    head: int,
    k: int,
    c: Cord,
)
    requires
        v.inv(),
        route_inv(v, from, n0, visited0),
        0 <= head < n0.len(),
        0 <= k < 6,
        c == n0[head].c.offset(face_diffs()[k]),
        neighbours_reached(v, n0, head),
        level_reached(v, from, n0, n0[head].len as int),
        one_ahead(n0, n0[head].len as int),
        sides_reached(v, n0, n0[head].c, n0[head].len as int, k),
        n1 == n0 || n1 == n0.push(
            MoveStep { len: (n0[head].len + 1) as usize, c, prev: Some(head as usize) },
        ),
        n1 == n0 ==> v.blocked(c) || (c.in_range(v.r) && flag_at(visited0, v.r, c)),
    ensures
        n1[head] == n0[head],
        neighbours_reached(v, n1, head),
        level_reached(v, from, n1, n0[head].len as int),
        one_ahead(n1, n0[head].len as int),
        sides_reached(v, n1, n0[head].c, n0[head].len as int, k + 1),
{
    reveal(route_inv);
    let cur = n0[head];
    let node = MoveStep { len: (cur.len + 1) as usize, c, prev: Some(head as usize) };
    if n1 != n0 {
        assert forall|i: int, p: Cord|
            0 <= i < head && #[trigger] adjacent(n1[i].c, p) && !v.blocked(p) implies reached_within(
            n1,
            p,
            n1[i].len + 1,
        ) by {
            assert(n1[i] == n0[i]);
            lemma_reached_push(n0, node, p, n0[i].len + 1);
        }
        assert forall|o: Cord, n: nat| n <= cur.len && #[trigger] free_reach(
            v,
            from,
            o,
            n,
        ) implies reached_within(n1, o, n as int) by {
            lemma_reached_push(n0, node, o, n as int);
        }
        assert(n1[n0.len() as int].c == c);
        assert forall|j: int| 0 <= j < n1.len() implies (#[trigger] n1[j]).len <= cur.len + 1 by {
            if j < n0.len() {
                assert(n1[j] == n0[j]);
            }
        }
    }
    assert forall|q: int|
        0 <= q < k + 1 && !v.blocked(cur.c.offset(#[trigger] face_diffs()[q])) implies reached_within(
        n1,
        cur.c.offset(face_diffs()[q]),
        cur.len + 1,
    ) by {
        let p = cur.c.offset(face_diffs()[q]);
        if q < k {
            assert(reached_within(n0, p, cur.len + 1));
            if n1 != n0 {
                lemma_reached_push(n0, node, p, cur.len + 1);
            }
        } else {
            assert(p == c);
            if n1 != n0 {
                assert(n1[n0.len() as int].c == c);
            } else {
                assert(node_at(n0, c));
                let j = choose|j: int| 0 <= j < n0.len() && n0[j].c == c;
                assert(n0[j].len <= cur.len + 1);
            }
        }
    }
}

/// What holds when all six neighbours of the cell at `head` have been looked at.
proof fn lemma_head_done(
    v: SystemView,
    from: Cord,
    goal: Seq<bool>,
    steps: Seq<MoveStep>,
    visited: Seq<bool>,
    head: int,
)
    requires
        v.inv(),
        route_inv(v, from, steps, visited),
        0 <= head < steps.len(),
        neighbours_reached(v, steps, head),
        level_reached(v, from, steps, steps[head].len as int),
        one_ahead(steps, steps[head].len as int),
        sides_reached(v, steps, steps[head].c, steps[head].len as int, 6),
        none_before(v, steps, goal, head),
        !flag_at(goal, v.r, steps[head].c),
    ensures
        neighbours_reached(v, steps, head + 1),
        none_before(v, steps, goal, head + 1),
        head + 1 < steps.len() ==> level_reached(v, from, steps, steps[head + 1].len as int)
            && one_ahead(steps, steps[head + 1].len as int),
{
    reveal(route_inv);
    lemma_inv_facts(v);
    let s = steps;
    let cur = s[head];
    assert forall|i: int, p: Cord|
        0 <= i < head + 1 && #[trigger] adjacent(s[i].c, p) && !v.blocked(p) implies reached_within(
        s,
        p,
        s[i].len + 1,
    ) by {
        if i == head {
            let q = lemma_adjacent_step(cur.c, p);
            assert(!v.blocked(cur.c.offset(face_diffs()[q])));
        }
    }
    if head + 1 < s.len() {
        assert(s[head].len <= s[head + 1].len);
        assert(s[head + 1].len <= cur.len + 1);
        if s[head + 1].len != cur.len {
            lemma_next_level(v, from, s, head + 1, cur.len as int);
        }
        assert forall|j: int| 0 <= j < s.len() implies (#[trigger] s[j]).len <= s[head + 1].len
            + 1 by {
            assert(s[j].len <= cur.len + 1);
        }
    }
}

proof fn lemma_exhausted(
    v: SystemView,
    from: Cord,
    goal: Seq<bool>,
    steps: Seq<MoveStep>,
    visited: Seq<bool>,
)
    requires
        route_inv(v, from, steps, visited),
        neighbours_reached(v, steps, steps.len() as int),
        none_before(v, steps, goal, steps.len() as int),
    ensures
        out_of_reach(v, from, goal),
{
    reveal(route_inv);
    let s = steps;
    assert forall|c: Cord, n: nat| #[trigger] free_reach(v, from, c, n) implies !flag_at(
        goal,
        v.r,
        c,
    ) by {
        lemma_search_complete(v, from, s, c, n);
        let j = choose|j: int| 0 <= j < s.len() && s[j].c == c && s[j].len <= n;
        assert(!flag_at(goal, v.r, s[j].c));
    }
}

impl System {
    /// Looks breadth first, from `from` over free voxels, for the nearest voxel whose flag
    /// is set in `goal`; among several at the same distance the first one found.
    pub fn search(&self, from: Cord, goal: &Vec<bool>) -> (res: Option<(Vec<MoveStep>, usize)>)
        requires
            self.wf(),
            from.in_range(self@.r),
            flags_wf(goal@, self@.r),
        ensures
            match res {
                Some((steps, at)) => found(self@, from, goal@, steps@, at as int) && scan_from(
                    self@,
                    from,
                    flagged(goal@, self@.r),
                ) == (steps@, Some(at as int)),
                None => out_of_reach(self@, from, goal@) && scan_from(
                    self@,
                    from,
                    flagged(goal@, self@.r),
                ).1 is None,
            },
    {
        let ghost v = self@;
        let ghost g = flagged(goal@, v.r);
        let ghost total = scan_from(v, from, g);
        proof {
            lemma_inv_facts(v);
        }
        let r = self.matrix.r;
        let diffs = CordDiff::gen_all_diff();
        let mut steps: Vec<MoveStep> = Vec::new();
        steps.push(MoveStep { len: 0, c: from, prev: None });
        let mut visited = flags_new(r);
        flags_set(&mut visited, r, from, true);
        proof {
            lemma_route_start(v, from, steps@, visited@);
            assert(steps@ =~= scan_start(from));
        }
        let mut head: usize = 0;
        while head < steps.len()
            invariant
                self.wf(),
                v == self@,
                r == self.matrix.r,
                from.in_range(v.r),
                flags_wf(goal@, v.r),
                diffs@ == face_diffs(),
                head <= steps.len(),
                g == flagged(goal@, v.r),
                total == scan_from(v, from, g),
                scan(v, g, steps@, head as int, 0) == total,
                route_inv(v, from, steps@, visited@),
                neighbours_reached(v, steps@, head as int),
                none_before(v, steps@, goal@, head as int),
                head < steps.len() ==> level_reached(v, from, steps@, steps[head as int].len as int)
                    && one_ahead(steps@, steps[head as int].len as int),
            decreases self.matrix.r * self.matrix.r * self.matrix.r - head,
        {
            let cur = steps[head];
            proof {
                lemma_route_cell(v, from, steps@, visited@, head as int);
            }
            if flags_get(goal, r, cur.c) {
                proof {
                    lemma_found(v, from, goal@, steps@, visited@, head as int);
                    assert(g(cur.c));
                    assert(scan(v, g, steps@, head as int, 0) == (steps@, Some(head as int)));
                }
                return Some((steps, head));
            }
            assert(!g(cur.c));
            let mut k: usize = 0;
            while k < diffs.len()
                invariant
                    self.wf(),
                    v == self@,
                    r == self.matrix.r,
                    from.in_range(v.r),
                    diffs@ == face_diffs(),
                    head < steps.len(),
                    k <= diffs.len(),
                    cur == steps[head as int],
                    g == flagged(goal@, v.r),
                    !g(cur.c),
                    scan(v, g, steps@, head as int, k as int) == total,
                    route_inv(v, from, steps@, visited@),
                    neighbours_reached(v, steps@, head as int),
                    none_before(v, steps@, goal@, head as int),
                    level_reached(v, from, steps@, cur.len as int),
                    one_ahead(steps@, cur.len as int),
                    sides_reached(v, steps@, cur.c, cur.len as int, k as int),
                decreases diffs.len() - k,
            {
                let d = diffs[k];
                proof {
                    lemma_route_cell(v, from, steps@, visited@, head as int);
                    assert(face_diffs().contains(d));
                    lemma_face_diffs(d);
                }
                let c = cur.c + d;
                let ghost n0 = steps@;
                let ghost visited0 = visited@;
                proof {
                    lemma_scan_side(v, g, n0, head as int, k as int);
                    if c.in_range(v.r) {
                        lemma_route_visited(v, from, n0, visited0, c);
                    }
                }
                if !self.is_blocked(c) && !flags_get(&visited, r, c) {
                    assert(adjacent(cur.c, c));
                    visit(self, Ghost(from), &mut steps, &mut visited, c, head);
                }
                proof {
                    lemma_side_done(v, from, n0, steps@, visited0, head as int, k as int, c);
                    assert(none_before(v, steps@, goal@, head as int)) by {
                        assert forall|i: int| 0 <= i < head && i < steps@.len() implies !flag_at(
                            goal@,
                            v.r,
                            (#[trigger] steps@[i]).c,
                        ) by {
                            assert(steps@[i] == n0[i]);
                        }
                    }
                }
                k = k + 1;
            }
            proof {
                lemma_head_done(v, from, goal@, steps@, visited@, head as int);
            }
            head = head + 1;
        }
        proof {
            lemma_exhausted(v, from, goal@, steps@, visited@);
        }
        None
    }
}


/// Whether some chain of steps over free voxels leads from `from` to `to`.
pub open spec fn reachable(v: SystemView, from: Cord, to: Cord) -> bool {
    exists|n: nat| free_reach(v, from, to, n)
}

/// The moves `units` are a shortest way from `from` to `to` over free voxels.
pub open spec fn route(v: SystemView, from: Cord, to: Cord, units: Seq<Cmd>) -> bool {
    &&& free_walk(v, from, units)
    &&& lands(from, units) == to
    &&& forall|n: nat| #[trigger] free_reach(v, from, to, n) ==> units.len() <= n
}

/// The one voxel `to` as a goal.
pub open spec fn is_cell(to: Cord) -> spec_fn(Cord) -> bool {
    |c: Cord| c == to
}

/// The voxels that have one of `targets` near them, as a goal.
pub open spec fn has_near(v: SystemView, targets: Seq<Cord>) -> spec_fn(Cord) -> bool {
    |c: Cord| near_goal(v, targets, c)
}

/// The compressed moves that lead to the cell that a search has found; none where it has
/// found no cell.
pub open spec fn way_found(search: (Seq<MoveStep>, Option<int>)) -> Seq<Cmd> {
    match search.1 {
        Some(at) => compressed(chain_units(search.0, at)),
        None => Seq::empty(),
    }
}

/// The commands of the way from `from` to `to` that a search finds.
pub open spec fn way_to(v: SystemView, from: Cord, to: Cord) -> Seq<Cmd> {
    way_found(scan_from(v, from, is_cell(to)))
}

/// The first of the commands, or `Wait` where there is none.
pub open spec fn first_of(cmds: Seq<Cmd>) -> Cmd {
    if cmds.len() > 0 {
        cmds[0]
    } else {
        Cmd::Wait
    }
}

/// The first of the compressed moves `units`, or `Wait` where there is no move.
pub open spec fn first_or_wait(units: Seq<Cmd>) -> Cmd {
    if units.len() == 0 {
        Cmd::Wait
    } else {
        compressed(units)[0]
    }
}

/// Whether `cmd` is what a bot at `from` does next on its way to `to`: the first command of
/// the compressed moves of a shortest way over free voxels; `Wait` where there is no way, or
/// where the bot is there.
pub open spec fn heads_to(v: SystemView, from: Cord, to: Cord, cmd: Cmd) -> bool {
    if reachable(v, from, to) {
        exists|units: Seq<Cmd>| #[trigger] route(v, from, to, units) && cmd == first_or_wait(units)
    } else {
        cmd == Cmd::Wait
    }
}

/// The place in the list of near displacements of the first one that leads from `c` to a
/// voxel of the grid that stands in `targets`; 18 where none does.
pub open spec fn first_near(v: SystemView, targets: Seq<Cord>, c: Cord, upto: int) -> int
    decreases upto,
{
    if upto <= 0 {
        18
    } else {
        let before = first_near(v, targets, c, upto - 1);
        if before < 18 {
            before
        } else if c.offset(near_diffs()[upto - 1]).in_range(v.r) && targets.contains(
            c.offset(near_diffs()[upto - 1]),
        ) {
            upto - 1
        } else {
            18
        }
    }
}

/// Whether a voxel of the grid that stands in `targets` is near the voxel `c`.
pub open spec fn near_goal(v: SystemView, targets: Seq<Cord>, c: Cord) -> bool {
    exists|q: int|
        0 <= q < 18 && c.offset(#[trigger] near_diffs()[q]).in_range(v.r) && targets.contains(
            c.offset(near_diffs()[q]),
        )
}

/// The moves `units` are a shortest way from `from` over free voxels to a voxel that has
/// one of `targets` near it.
pub open spec fn route_near(v: SystemView, from: Cord, targets: Seq<Cord>, units: Seq<Cmd>) -> bool {
    &&& free_walk(v, from, units)
    &&& near_goal(v, targets, lands(from, units))
    &&& forall|c: Cord, n: nat|
        #[trigger] free_reach(v, from, c, n) && near_goal(v, targets, c) ==> units.len() <= n
}

/// No voxel that can be reached from `from` over free voxels has one of `targets` near it.
pub open spec fn no_work_in_reach(v: SystemView, from: Cord, targets: Seq<Cord>) -> bool {
    forall|c: Cord, n: nat| #[trigger] free_reach(v, from, c, n) ==> !near_goal(v, targets, c)
}

/// What a way to a voxel next to a target is: its commands are the compressed moves of a
/// shortest way over free voxels to a voxel with a target near it, they take the bot as many
/// cells as the way is long, none of them is blocked, and the target is the first one near
/// the end of the way, in the order of the near displacements.
pub open spec fn leads_near(v: SystemView, from: Cord, targets: Seq<Cord>, m: MoveToNear) -> bool {
    &&& scan_from(v, from, has_near(v, targets)).1 is Some
    &&& m.move_cmds.cmds@ == way_found(scan_from(v, from, has_near(v, targets)))
    &&& m.final_pos == scan_from(v, from, has_near(v, targets)).0[scan_from(
        v,
        from,
        has_near(v, targets),
    ).1->0].c
    &&& exists|units: Seq<Cmd>| #[trigger]
        route_near(v, from, targets, units) && m.move_cmds.cmds@ == compressed(units)
            && m.final_pos == lands(from, units) && steps_of(m.move_cmds.cmds@) == units.len()
    &&& moves_clear(v, from, m.move_cmds.cmds@)
    &&& forall|k: int|
        0 <= k < m.move_cmds.cmds@.len() ==> is_move(#[trigger] m.move_cmds.cmds@[k])
    &&& m.move_cmds.cmds@.len() > 0 ==> !move_blocked(v, from, m.move_cmds.cmds@[0])
    &&& m.final_pos.in_range(v.r)
    &&& first_near(v, targets, m.final_pos, 18) < 18
    &&& m.target_nd.0 == near_diffs()[first_near(v, targets, m.final_pos, 18)]
    &&& m.target_nd.0.near()
    &&& m.target == m.final_pos.offset(m.target_nd.0)
    &&& m.target.in_range(v.r)
    &&& targets.contains(m.target)
}

/// A flag for each voxel of the grid that stands in `targets`.
fn flags_of(r: usize, targets: &Vec<Cord>) -> (bits: Vec<bool>)
    requires
        r <= MAX_SIDE,
    ensures
        flags_wf(bits@, r as int),
        forall|c: Cord| c.in_range(r as int) ==> flag_at(bits@, r as int, c) == targets@.contains(c),
{
    let mut bits = flags_new(r);
    let mut k: usize = 0;
    while k < targets.len()
        invariant
            k <= targets.len(),
            flags_wf(bits@, r as int),
            forall|c: Cord|
                c.in_range(r as int) ==> flag_at(bits@, r as int, c) == (exists|i: int|
                    0 <= i < k && targets[i] == c),
        decreases targets.len() - k,
    {
        let t = targets[k];
        let ghost before = bits@;
        if t.is_in_range(r) {
            flags_set(&mut bits, r, t, true);
        }
        proof {
            assert forall|c: Cord| c.in_range(r as int) implies flag_at(bits@, r as int, c) == (
            exists|i: int| 0 <= i < k + 1 && targets[i] == c) by {
                if c == t {
                    assert(targets[k as int] == c);
                } else if flag_at(before, r as int, c) {
                    let i = choose|i: int| 0 <= i < k && targets[i] == c;
                    assert(0 <= i < k + 1 && targets[i] == c);
                }
            }
        }
        k = k + 1;
    }
    proof {
        assert forall|c: Cord| c.in_range(r as int) implies flag_at(bits@, r as int, c)
            == targets@.contains(c) by {
            if targets@.contains(c) {
                let i = choose|i: int| 0 <= i < targets.len() && targets[i] == c;
                assert(0 <= i < k && targets[i] == c);
            }
        }
    }
    bits
}

/// A flag for each voxel of the grid that has one of `targets` near it.
fn goal_flags(r: usize, Ghost(v): Ghost<SystemView>, targets: &Vec<Cord>) -> (goal: Vec<bool>)
    requires
        r == v.r,
        r <= MAX_SIDE,
    ensures
        flags_wf(goal@, v.r),
        forall|c: Cord| c.in_range(v.r) ==> flag_at(goal@, v.r, c) == near_goal(v, targets@, c),
{
    let nears = CordDiff::gen_all_near_diff();
    let mut goal = flags_new(r);
    let mut i: usize = 0;
    while i < targets.len()
        invariant
            r == v.r,
            r <= MAX_SIDE,
            nears@ == near_diffs(),
            i <= targets.len(),
            flags_wf(goal@, v.r),
            forall|c: Cord|
                c.in_range(v.r) ==> flag_at(goal@, v.r, c) == near_upto(v, targets@, c, i as int, 0),
        decreases targets.len() - i,
    {
        let t = targets[i];
        if t.is_in_range(r) {
            let mut q: usize = 0;
            while q < nears.len()
                invariant
                    r == v.r,
                    r <= MAX_SIDE,
                    nears@ == near_diffs(),
                    nears@.len() == 18,
                    i < targets.len(),
                    t == targets[i as int],
                    t.in_range(v.r),
                    q <= 18,
                    flags_wf(goal@, v.r),
                    forall|c: Cord|
                        c.in_range(v.r) ==> flag_at(goal@, v.r, c) == near_upto(
                            v,
                            targets@,
                            c,
                            i as int,
                            q as int,
                        ),
                decreases 18 - q,
            {
                let d = nears[q];
                proof {
                    assert(near_diffs().contains(d));
                    lemma_near_diffs(d);
                }
                let c = t + CordDiff::new(-d.dx, -d.dy, -d.dz);
                let ghost before = goal@;
                if c.is_in_range(r) {
                    flags_set(&mut goal, r, c, true);
                }
                proof {
                    assert forall|o: Cord| o.in_range(v.r) implies flag_at(goal@, v.r, o)
                        == near_upto(v, targets@, o, i as int, q + 1) by {
                        if o == c {
                            assert(o.offset(near_diffs()[q as int]) == t);
                        } else {
                            assert(o.offset(near_diffs()[q as int]) != t);
                        }
                    }
                }
                q = q + 1;
            }
        }
        proof {
            assert forall|c: Cord| c.in_range(v.r) implies flag_at(goal@, v.r, c) == near_upto(
                v,
                targets@,
                c,
                i + 1,
                0,
            ) by {
                lemma_near_upto_next(v, targets@, c, i as int);
            }
        }
        i = i + 1;
    }
    proof {
        assert forall|c: Cord| c.in_range(v.r) implies flag_at(goal@, v.r, c) == near_goal(
            v,
            targets@,
            c,
        ) by {
            lemma_near_upto_all(v, targets@, c);
        }
    }
    goal
}

impl System {
    /// The place in the list of near displacements of the first one that leads from `c` to
    /// a voxel whose flag is set; 18 where none does.
    fn first_near_of(&self, Ghost(targets): Ghost<Seq<Cord>>, tmap: &Vec<bool>, c: Cord) -> (q: usize)
        requires
            self.wf(),
            c.in_range(self@.r),
            flags_wf(tmap@, self@.r),
            forall|o: Cord| o.in_range(self@.r) ==> flag_at(tmap@, self@.r, o) == targets.contains(o),
        ensures
            q == first_near(self@, targets, c, 18),
            q <= 18,
            q < 18 <==> near_goal(self@, targets, c),
            q < 18 ==> c.offset(near_diffs()[q as int]).in_range(self@.r) && targets.contains(
                c.offset(near_diffs()[q as int]),
            ) && c.can_offset(near_diffs()[q as int]) && near_diffs()[q as int].near(),
    {
        let ghost v = self@;
        proof {
            lemma_inv_facts(v);
        }
        let r = self.matrix.r;
        let nears = CordDiff::gen_all_near_diff();
        let mut k: usize = 0;
        while k < nears.len()
            invariant
                self.wf(),
                v == self@,
                r == self.matrix.r,
                r <= MAX_SIDE,
                c.in_range(v.r),
                nears@ == near_diffs(),
                nears@.len() == 18,
                k <= 18,
                flags_wf(tmap@, v.r),
                forall|o: Cord| o.in_range(v.r) ==> flag_at(tmap@, v.r, o) == targets.contains(o),
                first_near(v, targets, c, k as int) == 18,
                forall|q: int|
                    0 <= q < k ==> !(c.offset(#[trigger] near_diffs()[q]).in_range(v.r)
                        && targets.contains(c.offset(near_diffs()[q]))),
            decreases 18 - k,
        {
            let d = nears[k];
            proof {
                assert(near_diffs().contains(d));
                lemma_near_diffs(d);
            }
            let t = c + d;
            if t.is_in_range(r) && flags_get(tmap, r, t) {
                proof {
                    assert(first_near(v, targets, c, k + 1) == k);
                    lemma_first_near_stays(v, targets, c, k + 1, 18);
                }
                return k;
            }
            k = k + 1;
        }
        proof {
            lemma_near_diffs(near_diffs()[0]);
        }
        18
    }

    /// The commands of a shortest way from `from` to `to` over voxels that are neither full
    /// nor claimed; none where there is no way, or where `to` is `from`.
    pub fn move_to(&self, from: Cord, to: Cord) -> (m: MoveCmds)
        requires
            self.wf(),
            from.in_range(self@.r),
        ensures
            m.cmds@ == way_to(self@, from, to),
            reachable(self@, from, to) ==> exists|units: Seq<Cmd>| #[trigger]
                route(self@, from, to, units) && m.cmds@ == compressed(units) && steps_of(m.cmds@)
                    == units.len(),
            moves_clear(self@, from, m.cmds@),
            !reachable(self@, from, to) ==> m.cmds@.len() == 0,
            forall|k: int| 0 <= k < m.cmds@.len() ==> is_move(#[trigger] m.cmds@[k]),
            m.cmds@.len() > 0 ==> !move_blocked(self@, from, m.cmds@[0]),
    {
        let ghost v = self@;
        proof {
            lemma_inv_facts(v);
        }
        let r = self.matrix.r;
        let mut goal = flags_new(r);
        if to.is_in_range(r) {
            flags_set(&mut goal, r, to, true);
        }
        proof {
            lemma_scan_goal(v, flagged(goal@, v.r), is_cell(to), scan_start(from), 0, 0);
        }
        match self.search(from, &goal) {
            Some((steps, at)) => {
                let m = MoveCmds::from_steps(&steps, at);
                proof {
                    let units = chain_units(steps@, at as int);
                    assert(steps[at as int].c == to);
                    assert(route(v, from, to, units));
                    lemma_compressed_valid(units);
                    lemma_walk_reach(v, from, units);
                    assert(reachable(v, from, to));
                    if units.len() > 0 {
                        lemma_compressed_clear(v, from, units);
                    }
                }
                m
            },
            None => {
                proof {
                    assert forall|n: nat| !free_reach(v, from, to, n) by {
                        if free_reach(v, from, to, n) {
                            lemma_reach_in_range(v, from, to, n);
                            assert(!flag_at(goal@, v.r, to));
                        }
                    }
                }
                MoveCmds { cmds: Vec::new() }
            },
        }
    }

    /// The first command of a shortest way from `from` to `to`, or `Wait` where there is no
    /// way or where `to` is `from`.
    pub fn move_to_first_or_wait_cmd(&self, from: Cord, to: Cord) -> (cmd: Cmd)
        requires
            self.wf(),
            from.in_range(self@.r),
        ensures
            cmd == first_of(way_to(self@, from, to)),
            heads_to(self@, from, to, cmd),
            cmd == Cmd::Wait || is_move(cmd),
            !move_blocked(self@, from, cmd),
    {
        let moves = self.move_to(from, to);
        proof {
            if reachable(self@, from, to) {
                let units = choose|units: Seq<Cmd>| #[trigger]
                    route(self@, from, to, units) && moves.cmds@ == compressed(units);
                lemma_walk_units(self@, from, units);
                lemma_compressed_valid(units);
            }
        }
        if moves.cmds.len() > 0 {
            moves.cmds[0]
        } else {
            Cmd::Wait
        }
    }

    /// The way to the nearest voxel from which one of `targets` can be worked: the commands
    /// of a shortest way over voxels that are neither full nor claimed, the voxel where it
    /// ends, and the first target near it. An error where no such voxel can be reached.
    #[verifier::rlimit(50)]
    pub fn move_to_near(&self, from: Cord, targets: &Vec<Cord>) -> (res: Result<
        MoveToNear,
        NanoBotError,
    >)
        requires
            self.wf(),
            from.in_range(self@.r),
        ensures
            res is Err <==> no_work_in_reach(self@, from, targets@),
            res is Err <==> scan_from(self@, from, has_near(self@, targets@)).1 is None,
            res matches Ok(m) ==> leads_near(self@, from, targets@, m),
    {
        let ghost v = self@;
        proof {
            lemma_inv_facts(v);
        }
        let r = self.matrix.r;
        let tmap = flags_of(r, targets);
        let nears = CordDiff::gen_all_near_diff();
        let goal = goal_flags(r, Ghost(v), targets);
        proof {
            lemma_scan_goal(
                v,
                flagged(goal@, v.r),
                has_near(v, targets@),
                scan_start(from),
                0,
                0,
            );
        }
        match self.search(from, &goal) {
            Some((steps, at)) => {
                let final_pos = steps[at].c;
                let q = self.first_near_of(Ghost(targets@), &tmap, final_pos);
                let nd = nears[q];
                let target = final_pos + nd;
                let m = MoveToNear::from_steps(&steps, at, target);
                proof {
                    lemma_near_found(v, from, targets@, goal@, steps@, at as int);
                }
                Ok(m)
            },
            None => {
                proof {
                    lemma_near_none(v, from, targets@, goal@);
                }
                Err(NanoBotError)
            },
        }
    }
}

/// What a search for a voxel with a target near it has found.
proof fn lemma_near_found(
    v: SystemView,
    from: Cord,
    targets: Seq<Cord>,
    goal: Seq<bool>,
    steps: Seq<MoveStep>,
    at: int,
)
    requires
        v.inv(),
        from.in_range(v.r),
        found(v, from, goal, steps, at),
        forall|c: Cord| c.in_range(v.r) ==> flag_at(goal, v.r, c) == near_goal(v, targets, c),
    ensures
        route_near(v, from, targets, chain_units(steps, at)),
        lands(from, chain_units(steps, at)) == steps[at].c,
        forall|k: int|
            0 <= k < compressed(chain_units(steps, at)).len() ==> is_move(
                #[trigger] compressed(chain_units(steps, at))[k],
            ),
        compressed(chain_units(steps, at)).len() > 0 ==> !move_blocked(
            v,
            from,
            compressed(chain_units(steps, at))[0],
        ),
        !no_work_in_reach(v, from, targets),
        near_goal(v, targets, steps[at].c),
        moves_clear(v, from, compressed(chain_units(steps, at))),
        steps_of(compressed(chain_units(steps, at))) == chain_units(steps, at).len(),
{
    lemma_inv_facts(v);
    let units = chain_units(steps, at);
    lemma_walk_reach(v, from, units);
    assert(free_reach(v, from, steps[at].c, units.len()));
    lemma_compressed_valid(units);
    if units.len() > 0 {
        lemma_compressed_clear(v, from, units);
    }
    assert forall|c: Cord, n: nat| #[trigger] free_reach(v, from, c, n) && near_goal(
        v,
        targets,
        c,
    ) implies units.len() <= n by {
        lemma_reach_in_range(v, from, c, n);
    }
}

/// What a search for a voxel with a target near it has not found is not there.
proof fn lemma_near_none(v: SystemView, from: Cord, targets: Seq<Cord>, goal: Seq<bool>)
    requires
        from.in_range(v.r),
        out_of_reach(v, from, goal),
        forall|c: Cord| c.in_range(v.r) ==> flag_at(goal, v.r, c) == near_goal(v, targets, c),
    ensures
        no_work_in_reach(v, from, targets),
{
    assert forall|c: Cord, n: nat| #[trigger] free_reach(v, from, c, n) implies !near_goal(
        v,
        targets,
        c,
    ) by {
        lemma_reach_in_range(v, from, c, n);
    }
}

/// Whether a voxel of the grid that is one of the first `i` of `targets`, or the target at
/// `i` by one of the first `q` near displacements, is near `c`.
pub open spec fn near_upto(v: SystemView, targets: Seq<Cord>, c: Cord, i: int, q: int) -> bool {
    exists|a: int, b: int|
        0 <= a < targets.len() && 0 <= b < 18 && (a < i || (a == i && b < q))
            && targets[a].in_range(v.r) && c.offset(#[trigger] near_diffs()[b]) == #[trigger] targets[a]
}

proof fn lemma_near_upto_next(v: SystemView, targets: Seq<Cord>, c: Cord, i: int)
    requires
        0 <= i < targets.len(),
    ensures
        near_upto(v, targets, c, i + 1, 0) == (if targets[i].in_range(v.r) {
            near_upto(v, targets, c, i, 18)
        } else {
            near_upto(v, targets, c, i, 0)
        }),
{
    if near_upto(v, targets, c, i + 1, 0) {
        let (a, b) = choose|a: int, b: int|
            0 <= a < targets.len() && 0 <= b < 18 && (a < i + 1 || (a == i + 1 && b < 0))
                && targets[a].in_range(v.r) && c.offset(#[trigger] near_diffs()[b])
                == #[trigger] targets[a];
        assert(a < i || (a == i && b < 18));
    }
    if near_upto(v, targets, c, i, 18) {
        let (a, b) = choose|a: int, b: int|
            0 <= a < targets.len() && 0 <= b < 18 && (a < i || (a == i && b < 18))
                && targets[a].in_range(v.r) && c.offset(#[trigger] near_diffs()[b])
                == #[trigger] targets[a];
        assert(a < i + 1);
    }
    if near_upto(v, targets, c, i, 0) {
        let (a, b) = choose|a: int, b: int|
            0 <= a < targets.len() && 0 <= b < 18 && (a < i || (a == i && b < 0))
                && targets[a].in_range(v.r) && c.offset(#[trigger] near_diffs()[b])
                == #[trigger] targets[a];
        assert(a < i + 1);
    }
}

proof fn lemma_near_upto_all(v: SystemView, targets: Seq<Cord>, c: Cord)
    ensures
        near_upto(v, targets, c, targets.len() as int, 0) == near_goal(v, targets, c),
{
    if near_upto(v, targets, c, targets.len() as int, 0) {
        let (a, b) = choose|a: int, b: int|
            0 <= a < targets.len() && 0 <= b < 18 && (a < targets.len() || (a == targets.len() && b
                < 0)) && targets[a].in_range(v.r) && c.offset(#[trigger] near_diffs()[b])
                == #[trigger] targets[a];
        assert(targets.contains(c.offset(near_diffs()[b])));
    }
    if near_goal(v, targets, c) {
        let q = choose|q: int|
            0 <= q < 18 && c.offset(#[trigger] near_diffs()[q]).in_range(v.r) && targets.contains(
                c.offset(near_diffs()[q]),
            );
        let t = c.offset(near_diffs()[q]);
        let a = choose|a: int| 0 <= a < targets.len() && targets[a] == t;
        assert(c.offset(near_diffs()[q]) == targets[a]);
    }
}

proof fn lemma_first_near_stays(v: SystemView, targets: Seq<Cord>, c: Cord, k: int, upto: int)
    requires
        0 <= k <= upto,
        first_near(v, targets, c, k) < 18,
    ensures
        first_near(v, targets, c, upto) == first_near(v, targets, c, k),
    decreases upto - k,
{
    if k < upto {
        lemma_first_near_stays(v, targets, c, k, upto - 1);
    }
}

/// Whatever a chain of steps over free voxels leads to lies in the grid.
pub proof fn lemma_reach_in_range(v: SystemView, from: Cord, c: Cord, n: nat)
    requires
        from.in_range(v.r),
        free_reach(v, from, c, n),
    ensures
        c.in_range(v.r),
{
}

/// A walk over free voxels is a chain of steps over free voxels.
pub proof fn lemma_walk_reach(v: SystemView, from: Cord, units: Seq<Cmd>)
    requires
        free_walk(v, from, units),
        from.in_range(v.r),
        v.r <= MAX_SIDE,
    ensures
        free_reach(v, from, lands(from, units), units.len()),
        lands(from, units).in_range(v.r),
        from.x + displacement(units).x == lands(from, units).x,
        from.y + displacement(units).y == lands(from, units).y,
        from.z + displacement(units).z == lands(from, units).z,
    decreases units.len(),
{
    if units.len() == 0 {
    } else {
        let before = units.drop_last();
        lemma_walk_reach(v, from, before);
        assert(units =~= before.push(units.last()));
        crate::moves::lemma_displacement_push(before, units.last());
        assert(adjacent(lands(from, before), lands(from, units)));
    }
}

/// The moves of a walk over free voxels are straight moves of one cell.
pub proof fn lemma_walk_units(v: SystemView, from: Cord, units: Seq<Cmd>)
    requires
        free_walk(v, from, units),
    ensures
        forall|k: int| 0 <= k < units.len() ==> crate::moves::is_straight(#[trigger] units[k]),
    decreases units.len(),
{
    if units.len() > 0 {
        let before = units.drop_last();
        lemma_walk_units(v, from, before);
        assert forall|k: int| 0 <= k < units.len() implies crate::moves::is_straight(
            #[trigger] units[k],
        ) by {
            if k < before.len() {
                assert(units[k] == before[k]);
            }
        }
    }
}

} // verus!
