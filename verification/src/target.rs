use crate::geometry::{
    adjacent, Cord, cord_lt, CordDiff, face_diffs, lemma_adjacent_step, lemma_face_diffs, magnitude,
};
use crate::grid::{
    count_set, flag_at, flags_get, flags_new, flags_set, flags_wf, lemma_count_bound,
    lemma_volume_bound,
};
use crate::model::{Model, ModelId};
use crate::moves::{lemma_reached_push, MoveStep, node_at, reached_within};
use vstd::prelude::*;

verus! {

/// A target voxel with the rank at which it is to be served: a lower rank comes first.
#[derive(Debug, Clone, Copy, PartialEq, Eq, PartialOrd, Ord, Structural)]
pub struct PriorityTarget {
    pub priority: i64,
    pub cord: Cord,
}

/// The targets that are still to be served, in ascending order of `(priority, cord)`.
#[derive(Debug)]
pub struct PriorityTargets {
    pub priority_targets: Vec<PriorityTarget>,
}

/// The order of the queue: by priority, then by coordinate.
pub open spec fn target_lt(a: PriorityTarget, b: PriorityTarget) -> bool {
    a.priority < b.priority || (a.priority == b.priority && cord_lt(a.cord, b.cord))
}

/// Every entry comes before the entries that follow it.
pub open spec fn targets_sorted(s: Seq<PriorityTarget>) -> bool {
    forall|i: int, j: int| 0 <= i < j < s.len() ==> target_lt(s[i], s[j])
}

/// No coordinate stands in two entries.
pub open spec fn cords_distinct(s: Seq<PriorityTarget>) -> bool {
    forall|i: int, j: int| 0 <= i < j < s.len() ==> s[i].cord != s[j].cord
}

/// Whether some entry of `s` stands for the coordinate `c`.
pub open spec fn has_cord(s: Seq<PriorityTarget>, c: Cord) -> bool {
    exists|k: int| 0 <= k < s.len() && s[k].cord == c
}

/// There is a chain of `n` steps, each between target voxels that share a face, that leads
/// from a target voxel of the ground plane `y == 0` to the target voxel `c`.
pub open spec fn grounded(model: &Model, c: Cord, n: nat) -> bool
    decreases n,
{
    model.is_target(c) && if n == 0 {
        c.y == 0
    } else {
        exists|p: Cord| #[trigger] adjacent(p, c) && grounded(model, p, (n - 1) as nat)
    }
}

/// Whether some entry of `s` stands for `c` with a priority of depth at most `n`.
pub open spec fn ranked_within(s: Seq<PriorityTarget>, c: Cord, n: nat) -> bool {
    exists|k: int| 0 <= k < s.len() && s[k].cord == c && depth(s[k].priority) <= n
}

/// The distance from the ground plane that a priority stands for.
pub open spec fn depth(priority: i64) -> nat {
    magnitude(priority as int) as nat
}

/// The entry of the queue for a target that the search has reached.
spec fn entry_of(id: ModelId, n: MoveStep) -> PriorityTarget {
    PriorityTarget {
        priority: if id.is_assemble() {
            n.len as i64
        } else {
            (-(n.len as int)) as i64
        },
        cord: n.c,
    }
}

/// What the search knows of the targets that it has reached so far.
spec fn search_inv(
    model: &Model,
    nodes: Seq<MoveStep>,
    visited: Seq<bool>,
    out: Seq<PriorityTarget>,
) -> bool {
    let r = model.r as int;
    &&& flags_wf(visited, r)
    &&& count_set(visited) == nodes.len()
    &&& forall|i: int|
        0 <= i < nodes.len() ==> {
            &&& (#[trigger] nodes[i]).c.in_range(r)
            &&& 0 <= nodes[i].len <= i
            &&& grounded(model, nodes[i].c, nodes[i].len as nat)
        }
    &&& forall|c: Cord| c.in_range(r) ==> flag_at(visited, r, c) == node_at(nodes, c)
    &&& forall|i: int, j: int| 0 <= i <= j < nodes.len() ==> nodes[i].len <= nodes[j].len
    &&& forall|i: int, j: int| 0 <= i < j < nodes.len() ==> nodes[i].c != nodes[j].c
    &&& targets_sorted(out)
    &&& forall|i: int| 0 <= i < nodes.len() ==> out.contains(entry_of(model.id, #[trigger] nodes[i]))
    &&& forall|k: int|
        0 <= k < out.len() ==> exists|i: int|
            0 <= i < nodes.len() && #[trigger] out[k] == entry_of(model.id, nodes[i])
}

/// Every target of the ground plane that comes before `(x, 0, z)` has been reached.
spec fn ground_seeded(model: &Model, nodes: Seq<MoveStep>, x: int, z: int) -> bool {
    forall|g: Cord|
        model.is_target(g) && g.y == 0 && (g.x < x || (g.x == x && g.z < z)) ==> reached_within(
            nodes,
            g,
            0,
        )
}

/// Every target next to one of the first `head` reached targets has been reached too, in at
/// most one step more.
spec fn next_targets_reached(model: &Model, nodes: Seq<MoveStep>, head: int) -> bool {
    forall|i: int, p: Cord|
        0 <= i < head && #[trigger] adjacent(nodes[i].c, p) && model.is_target(p)
            ==> reached_within(nodes, p, nodes[i].len + 1)
}

/// Once every reached target has had its neighbours looked at, whatever a chain of `n` steps
/// leads to from the ground has been reached in at most `n` steps.
proof fn lemma_ranking_complete(model: &Model, nodes: Seq<MoveStep>, c: Cord, n: nat)
    requires
        ground_seeded(model, nodes, model.r as int, 0),
        next_targets_reached(model, nodes, nodes.len() as int),
        grounded(model, c, n),
    ensures
        reached_within(nodes, c, n as int),
    decreases n,
{
    if n > 0 {
        let p = choose|p: Cord| #[trigger] adjacent(p, c) && grounded(model, p, (n - 1) as nat);
        lemma_ranking_complete(model, nodes, p, (n - 1) as nat);
        let j = choose|j: int| 0 <= j < nodes.len() && nodes[j].c == p && nodes[j].len <= n - 1;
        assert(adjacent(nodes[j].c, c));
        assert(reached_within(nodes, c, nodes[j].len + 1));
        let j2 = choose|j2: int|
            0 <= j2 < nodes.len() && nodes[j2].c == c && nodes[j2].len <= nodes[j].len + 1;
        assert(nodes[j2].len <= n);
    }
}

/// What the queue of a model holds at the start: the targets that a chain of steps reaches
/// from the ground, each once, with the least number of steps of such a chain as its depth,
/// in ascending order.
pub open spec fn ranks(model: &Model, s: Seq<PriorityTarget>) -> bool {
    &&& targets_sorted(s)
    &&& cords_distinct(s)
    &&& forall|k: int|
        0 <= k < s.len() ==> {
            let e = #[trigger] s[k];
            &&& grounded(model, e.cord, depth(e.priority))
            &&& (model.id.is_assemble() ==> e.priority >= 0)
            &&& (!model.id.is_assemble() ==> e.priority <= 0)
        }
    &&& forall|c: Cord, n: nat| #[trigger] grounded(model, c, n) ==> ranked_within(s, c, n)
}

/// Two lists in ascending order that hold the same entries are the same list.
pub proof fn lemma_sorted_same(a: Seq<PriorityTarget>, b: Seq<PriorityTarget>)
    requires
        targets_sorted(a),
        targets_sorted(b),
        forall|e: PriorityTarget| a.contains(e) <==> b.contains(e),
    ensures
        a == b,
    decreases a.len(),
{
    if a.len() == 0 {
        if b.len() > 0 {
            assert(b.contains(b[0]));
        }
        assert(a =~= b);
    } else {
        let x = a.last();
        assert(a.contains(a[a.len() - 1]));
        assert(b.contains(x));
        assert(b.len() > 0);
        let y = b.last();
        assert(b.contains(b[b.len() - 1]));
        assert(a.contains(y));
        let kx = choose|k: int| 0 <= k < b.len() && b[k] == x;
        let ky = choose|k: int| 0 <= k < a.len() && a[k] == y;
        if kx < b.len() - 1 {
            assert(target_lt(b[kx], b[b.len() - 1]));
        }
        if ky < a.len() - 1 {
            assert(target_lt(a[ky], a[a.len() - 1]));
        }
        assert(x == y);
        let a0 = a.drop_last();
        let b0 = b.drop_last();
        assert forall|e: PriorityTarget| a0.contains(e) <==> b0.contains(e) by {
            if a0.contains(e) {
                let k = choose|k: int| 0 <= k < a0.len() && a0[k] == e;
                assert(a[k] == e);
                assert(target_lt(a[k], a[a.len() - 1]));
                assert(a.contains(e));
                let j = choose|j: int| 0 <= j < b.len() && b[j] == e;
                assert(b0[j] == e);
            }
            if b0.contains(e) {
                let k = choose|k: int| 0 <= k < b0.len() && b0[k] == e;
                assert(b[k] == e);
                assert(target_lt(b[k], b[b.len() - 1]));
                assert(b.contains(e));
                let j = choose|j: int| 0 <= j < a.len() && a[j] == e;
                assert(a0[j] == e);
            }
        }
        assert(targets_sorted(a0)) by {
            assert forall|i: int, j: int| 0 <= i < j < a0.len() implies target_lt(a0[i], a0[j]) by {
                assert(target_lt(a[i], a[j]));
            }
        }
        assert(targets_sorted(b0)) by {
            assert forall|i: int, j: int| 0 <= i < j < b0.len() implies target_lt(b0[i], b0[j]) by {
                assert(target_lt(b[i], b[j]));
            }
        }
        lemma_sorted_same(a0, b0);
        assert(a =~= a0.push(x));
        assert(b =~= b0.push(y));
    }
}

/// The ranking of a model is one list and no other.
pub proof fn lemma_ranks_unique(model: &Model, a: Seq<PriorityTarget>, b: Seq<PriorityTarget>)
    requires
        ranks(model, a),
        ranks(model, b),
    ensures
        a == b,
{
    assert forall|e: PriorityTarget| a.contains(e) implies b.contains(e) by {
        lemma_ranked_in(model, a, b, e);
    }
    assert forall|e: PriorityTarget| b.contains(e) implies a.contains(e) by {
        lemma_ranked_in(model, b, a, e);
    }
    lemma_sorted_same(a, b);
}

proof fn lemma_ranked_in(
    model: &Model,
    a: Seq<PriorityTarget>,
    b: Seq<PriorityTarget>,
    e: PriorityTarget,
)
    requires
        ranks(model, a),
        ranks(model, b),
        a.contains(e),
    ensures
        b.contains(e),
{
    let i = choose|i: int| 0 <= i < a.len() && a[i] == e;
    assert(grounded(model, a[i].cord, depth(a[i].priority)));
    assert(ranked_within(b, e.cord, depth(e.priority)));
    let k = choose|k: int|
        0 <= k < b.len() && b[k].cord == e.cord && depth(b[k].priority) <= depth(e.priority);
    assert(grounded(model, b[k].cord, depth(b[k].priority)));
    assert(ranked_within(a, b[k].cord, depth(b[k].priority)));
    let j = choose|j: int|
        0 <= j < a.len() && a[j].cord == b[k].cord && depth(a[j].priority) <= depth(b[k].priority);
    if j < i {
        assert(a[j].cord != a[i].cord);
    } else if i < j {
        assert(a[i].cord != a[j].cord);
    }
    assert(b[k] == e);
}

/// Whether `a` comes before `b` in the order of the queue.
fn comes_first(a: &PriorityTarget, b: &PriorityTarget) -> (res: bool)
    ensures
        res == target_lt(*a, *b),
{
    a.priority < b.priority || (a.priority == b.priority && (a.cord.x < b.cord.x || (a.cord.x
        == b.cord.x && (a.cord.y < b.cord.y || (a.cord.y == b.cord.y && a.cord.z < b.cord.z)))))
}

/// Puts `t` into a sorted list at its place.
fn insert_target(v: &mut Vec<PriorityTarget>, t: PriorityTarget)
    requires
        targets_sorted(old(v)@),
        !old(v)@.contains(t),
    ensures
        targets_sorted(final(v)@),
        final(v)@.len() == old(v)@.len() + 1,
        forall|e: PriorityTarget| final(v)@.contains(e) <==> (e == t || old(v)@.contains(e)),
{
    let mut i: usize = v.len();
    while i > 0 && !comes_first(&v[i - 1], &t)
        invariant
            i <= v.len(),
            v@ == old(v)@,
            forall|k: int| i <= k < v.len() ==> !target_lt(v[k], t),
        decreases i,
    {
        i = i - 1;
    }
    v.insert(i, t);
    proof {
        let before = old(v)@;
        let after = v@;
        assert forall|a: int, b: int| 0 <= a < b < after.len() implies target_lt(
            after[a],
            after[b],
        ) by {
            if a == i {
                assert(after[b] == before[b - 1]);
                assert(before.contains(before[b - 1]));
            } else if b == i {
                assert(after[a] == before[a]);
                if a < i - 1 {
                    assert(target_lt(before[a], before[i - 1]));
                }
            }
        }
        assert forall|e: PriorityTarget| after.contains(e) <==> (e == t || before.contains(
            e,
        )) by {
            if after.contains(e) {
                let k = choose|k: int| 0 <= k < after.len() && after[k] == e;
                if k < i {
                    assert(before[k] == e);
                } else if k > i {
                    assert(before[k - 1] == e);
                }
            }
            if e == t {
                assert(after[i as int] == e);
            } else if before.contains(e) {
                let k = choose|k: int| 0 <= k < before.len() && before[k] == e;
                if k < i {
                    assert(after[k] == e);
                } else {
                    assert(after[k + 1] == e);
                }
            }
        }
    }
}


/// Takes the unvisited target `c`, reached in `len` steps, into the search.
fn reach(
    model: &Model,
    nodes: &mut Vec<MoveStep>,
    visited: &mut Vec<bool>,
    out: &mut Vec<PriorityTarget>,
    c: Cord,
    len: usize,
    prev: Option<usize>,
)
    requires
        model.wf(),
        search_inv(model, old(nodes)@, old(visited)@, old(out)@),
        c.in_range(model.r as int),
        !flag_at(old(visited)@, model.r as int, c),
        grounded(model, c, len as nat),
        0 <= len <= old(nodes).len(),
        forall|j: int| 0 <= j < old(nodes).len() ==> old(nodes)[j].len <= len,
    ensures
        search_inv(model, final(nodes)@, final(visited)@, final(out)@),
        final(nodes)@ == old(nodes)@.push(MoveStep { len, c, prev }),
{
    let r = model.r;
    let node = MoveStep { len, c, prev };
    proof {
        lemma_count_bound(old(visited)@);
        lemma_volume_bound(r as int);
    }
    let priority = match model.id {
        ModelId::Assemble(_) => len as i64,
        ModelId::Disassemble(_) => -(len as i64),
    };
    let t = PriorityTarget { priority, cord: c };
    proof {
        assert(t == entry_of(model.id, node));
        if old(out)@.contains(t) {
            let k = choose|k: int| 0 <= k < old(out)@.len() && old(out)@[k] == t;
            let i = choose|i: int|
                0 <= i < old(nodes).len() && old(out)@[k] == entry_of(model.id, old(nodes)[i]);
            assert(node_at(old(nodes)@, c));
        }
    }
    flags_set(visited, r, c, true);
    nodes.push(node);
    insert_target(out, t);
    proof {
        let n0 = old(nodes)@;
        let n1 = nodes@;
        let o0 = old(out)@;
        let o1 = out@;
        assert forall|i: int| 0 <= i < n1.len() implies {
            &&& (#[trigger] n1[i]).c.in_range(r as int)
            &&& 0 <= n1[i].len <= i
            &&& grounded(model, n1[i].c, n1[i].len as nat)
        } by {
            if i < n0.len() {
                assert(n1[i] == n0[i]);
            }
        }
        assert forall|o: Cord| o.in_range(r as int) implies flag_at(visited@, r as int, o)
            == node_at(n1, o) by {
            if o == c {
                assert(n1[n0.len() as int].c == o);
            } else {
                if node_at(n0, o) {
                    let j = choose|j: int| 0 <= j < n0.len() && n0[j].c == o;
                    assert(n1[j].c == o);
                }
                if node_at(n1, o) {
                    let j = choose|j: int| 0 <= j < n1.len() && n1[j].c == o;
                    assert(n0[j].c == o);
                }
            }
        }
        assert forall|i: int, j: int| 0 <= i < j < n1.len() implies n1[i].c != n1[j].c by {
            if j == n0.len() && n1[i].c == c {
                assert(n0[i].c == c);
                assert(node_at(n0, c));
            }
        }
        assert forall|i: int| 0 <= i < n1.len() implies o1.contains(
            entry_of(model.id, #[trigger] n1[i]),
        ) by {
            if i < n0.len() {
                assert(n1[i] == n0[i]);
                assert(o0.contains(entry_of(model.id, n0[i])));
            }
        }
        assert forall|k: int| 0 <= k < o1.len() implies exists|i: int|
            0 <= i < n1.len() && #[trigger] o1[k] == entry_of(model.id, n1[i]) by {
            assert(o1.contains(o1[k]));
            if o1[k] == t {
                assert(o1[k] == entry_of(model.id, n1[n0.len() as int]));
            } else {
                let k0 = choose|k0: int| 0 <= k0 < o0.len() && o0[k0] == o1[k];
                let i = choose|i: int|
                    0 <= i < n0.len() && o0[k0] == entry_of(model.id, n0[i]);
                assert(n1[i] == n0[i]);
            }
        }
    }
}

impl PriorityTargets {
    /// The entries are in ascending order and no coordinate stands in two of them.
    pub open spec fn wf(&self) -> bool {
        targets_sorted(self.priority_targets@) && cords_distinct(self.priority_targets@)
    }

    /// Ranks the targets of `model` by their distance from the ground plane, counted in
    /// steps between targets that share a face: the distance itself where the shape is to be
    /// assembled, its negative where it is to be taken apart. Targets that no such chain of
    /// steps reaches from the ground are left out.
    pub fn new(model: &Model) -> (pt: PriorityTargets)
        requires
            model.wf(),
        ensures
            ranks(model, pt.priority_targets@),
    {
        let r = model.r;
        let diffs = CordDiff::gen_all_diff();
        let mut out: Vec<PriorityTarget> = Vec::new();
        let mut nodes: Vec<MoveStep> = Vec::new();
        let mut visited = flags_new(r);
        let mut x: usize = 0;
        while x < r
            invariant
                model.wf(),
                r == model.r,
                x <= r,
                search_inv(model, nodes@, visited@, out@),
                forall|j: int|
                    0 <= j < nodes.len() ==> (#[trigger] nodes[j]).len == 0 && nodes[j].c.x < x,
                ground_seeded(model, nodes@, x as int, 0),
            decreases r - x,
        {
            let mut z: usize = 0;
            while z < r
                invariant
                    model.wf(),
                    r == model.r,
                    x < r,
                    z <= r,
                    search_inv(model, nodes@, visited@, out@),
                    forall|j: int|
                        0 <= j < nodes.len() ==> (#[trigger] nodes[j]).len == 0 && (nodes[j].c.x
                            < x || (nodes[j].c.x == x && nodes[j].c.z < z)),
                    ground_seeded(model, nodes@, x as int, z as int),
                decreases r - z,
            {
                let c = Cord::new(x as i32, 0, z as i32);
                let ghost n0 = nodes@;
                if model.has_target(c) {
                    assert(!flag_at(visited@, r as int, c)) by {
                        if node_at(nodes@, c) {
                            let j = choose|j: int| 0 <= j < nodes.len() && nodes[j].c == c;
                            assert(nodes[j].c.x < x || (nodes[j].c.x == x && nodes[j].c.z < z));
                        }
                    }
                    reach(model, &mut nodes, &mut visited, &mut out, c, 0, None);
                }
                proof {
                    assert forall|g: Cord|
                        model.is_target(g) && g.y == 0 && (g.x < x || (g.x == x && g.z < z
                            + 1)) implies reached_within(nodes@, g, 0) by {
                        if g == c {
                            assert(nodes@[n0.len() as int].c == g);
                        } else {
                            assert(reached_within(n0, g, 0));
                            if nodes@ != n0 {
                                lemma_reached_push(n0, MoveStep { len: 0, c, prev: None }, g, 0);
                            }
                        }
                    }
                }
                z = z + 1;
            }
            x = x + 1;
        }
        let mut head: usize = 0;
        while head < nodes.len()
            invariant
                model.wf(),
                r == model.r,
                diffs@ == face_diffs(),
                head <= nodes.len(),
                search_inv(model, nodes@, visited@, out@),
                ground_seeded(model, nodes@, r as int, 0),
                next_targets_reached(model, nodes@, head as int),
                head < nodes.len() ==> forall|j: int|
                    0 <= j < nodes.len() ==> nodes[j].len <= nodes[head as int].len + 1,
            decreases model.r * model.r * model.r - head,
        {
            let cur_c = nodes[head].c;
            let cur_len = nodes[head].len;
            let mut k: usize = 0;
            while k < diffs.len()
                invariant
                    model.wf(),
                    r == model.r,
                    diffs@ == face_diffs(),
                    head < nodes.len(),
                    k <= diffs.len(),
                    cur_c == nodes[head as int].c,
                    cur_len == nodes[head as int].len,
                    search_inv(model, nodes@, visited@, out@),
                    ground_seeded(model, nodes@, r as int, 0),
                    next_targets_reached(model, nodes@, head as int),
                    forall|j: int| 0 <= j < nodes.len() ==> nodes[j].len <= cur_len + 1,
                    forall|q: int|
                        0 <= q < k && model.is_target(cur_c.offset(#[trigger] face_diffs()[q]))
                            ==> reached_within(nodes@, cur_c.offset(face_diffs()[q]), cur_len + 1),
                decreases diffs.len() - k,
            {
                let d = diffs[k];
                proof {
                    assert(face_diffs().contains(d));
                    lemma_face_diffs(d);
                    lemma_count_bound(visited@);
                    lemma_volume_bound(r as int);
                }
                let c = cur_c + d;
                let ghost n0 = nodes@;
                let ghost node = MoveStep { len: (cur_len + 1) as usize, c, prev: Some(head) };
                if c.is_in_range(r) && model.has_target(c) && !flags_get(&visited, r, c) {
                    assert(grounded(model, c, (cur_len + 1) as nat)) by {
                        assert(adjacent(cur_c, c));
                    }
                    reach(model, &mut nodes, &mut visited, &mut out, c, cur_len + 1, Some(head));
                }
                proof {
                    let n1 = nodes@;
                    if n1 != n0 {
                        assert(n1 == n0.push(node));
                        assert forall|g: Cord|
                            model.is_target(g) && g.y == 0 && (g.x < r || (g.x == r && g.z
                                < 0)) implies reached_within(n1, g, 0) by {
                            lemma_reached_push(n0, node, g, 0);
                        }
                        assert forall|i: int, p: Cord|
                            0 <= i < head && #[trigger] adjacent(n1[i].c, p) && model.is_target(
                                p,
                            ) implies reached_within(n1, p, n1[i].len + 1) by {
                            assert(n1[i] == n0[i]);
                            lemma_reached_push(n0, node, p, n0[i].len + 1);
                        }
                        assert(n1[n0.len() as int].c == c);
                    }
                    assert forall|q: int|
                        0 <= q < k + 1 && model.is_target(
                            cur_c.offset(#[trigger] face_diffs()[q]),
                        ) implies reached_within(
                        n1,
                        cur_c.offset(face_diffs()[q]),
                        cur_len + 1,
                    ) by {
                        let p = cur_c.offset(face_diffs()[q]);
                        if q < k {
                            assert(reached_within(n0, p, cur_len + 1));
                            if n1 != n0 {
                                lemma_reached_push(n0, node, p, cur_len + 1);
                            }
                        } else {
                            assert(p == c);
                            if n1 != n0 {
                                assert(n1[n0.len() as int].c == c);
                            } else {
                                assert(node_at(n0, c));
                                let j = choose|j: int| 0 <= j < n0.len() && n0[j].c == c;
                                assert(n0[j].len <= cur_len + 1);
                            }
                        }
                    }
                }
                k = k + 1;
            }
            proof {
                lemma_count_bound(visited@);
                assert forall|i: int, p: Cord|
                    0 <= i < head + 1 && #[trigger] adjacent(nodes@[i].c, p) && model.is_target(
                        p,
                    ) implies reached_within(nodes@, p, nodes@[i].len + 1) by {
                    if i == head {
                        let q = lemma_adjacent_step(cur_c, p);
                        assert(model.is_target(cur_c.offset(face_diffs()[q])));
                    }
                }
            }
            head = head + 1;
        }
        proof {
            let ns = nodes@;
            let os = out@;
            lemma_count_bound(visited@);
            lemma_volume_bound(r as int);
            assert forall|k: int| 0 <= k < os.len() implies {
                let e = #[trigger] os[k];
                &&& grounded(model, e.cord, depth(e.priority))
                &&& (model.id.is_assemble() ==> e.priority >= 0)
                &&& (!model.id.is_assemble() ==> e.priority <= 0)
            } by {
                let i = choose|i: int| 0 <= i < ns.len() && os[k] == entry_of(model.id, ns[i]);
                assert(depth(os[k].priority) == ns[i].len as nat);
            }
            assert forall|c: Cord, n: nat| #[trigger] grounded(model, c, n) implies ranked_within(
                os,
                c,
                n,
            ) by {
                lemma_ranking_complete(model, ns, c, n);
                let j = choose|j: int| 0 <= j < ns.len() && ns[j].c == c && ns[j].len <= n;
                let e = entry_of(model.id, ns[j]);
                assert(os.contains(e));
                let k = choose|k: int| 0 <= k < os.len() && os[k] == e;
                assert(depth(os[k].priority) == ns[j].len as nat);
            }
            assert forall|a: int, b: int| 0 <= a < b < os.len() implies os[a].cord
                != os[b].cord by {
                let i = choose|i: int| 0 <= i < ns.len() && os[a] == entry_of(model.id, ns[i]);
                let j = choose|j: int| 0 <= j < ns.len() && os[b] == entry_of(model.id, ns[j]);
                if os[a].cord == os[b].cord {
                    assert(i == j);
                    assert(target_lt(os[a], os[b]));
                }
            }
        }
        PriorityTargets { priority_targets: out }
    }
}


/// The entries of `s` but the one for the coordinate `c`.
pub open spec fn without(s: Seq<PriorityTarget>, c: Cord) -> Seq<PriorityTarget> {
    s.filter(|e: PriorityTarget| e.cord != c)
}

/// Where no entry stands for `c`, nothing is left out.
pub proof fn lemma_without_none(s: Seq<PriorityTarget>, c: Cord)
    requires
        forall|k: int| 0 <= k < s.len() ==> s[k].cord != c,
    ensures
        without(s, c) == s,
    decreases s.len(),
{
    let keep = |e: PriorityTarget| e.cord != c;
    if s.len() == 0 {
        assert(s.filter(keep).len() <= s.len()) by {
            s.lemma_filter_len(keep);
        }
        assert(s.filter(keep) =~= s);
    } else {
        let init = s.drop_last();
        let last = s.last();
        assert(s =~= init.push(last));
        init.lemma_filter_push(last, keep);
        lemma_without_none(init, c);
        assert(keep(last));
    }
}

/// Where no coordinate stands twice and the entry at `i` stands for `c`, that entry is the
/// one that is left out.
pub proof fn lemma_without_at(s: Seq<PriorityTarget>, c: Cord, i: int)
    requires
        cords_distinct(s),
        0 <= i < s.len(),
        s[i].cord == c,
    ensures
        without(s, c) == s.remove(i),
    decreases s.len(),
{
    let keep = |e: PriorityTarget| e.cord != c;
    let init = s.drop_last();
    let last = s.last();
    assert(s =~= init.push(last));
    init.lemma_filter_push(last, keep);
    if i == s.len() - 1 {
        assert forall|k: int| 0 <= k < init.len() implies init[k].cord != c by {
            assert(s[k].cord != s[i].cord);
        }
        lemma_without_none(init, c);
        assert(!keep(last));
        assert(s.remove(i) =~= init);
    } else {
        assert(s[i].cord != s[s.len() - 1].cord);
        assert(keep(last));
        lemma_without_at(init, c, i);
        assert(init.remove(i).push(last) =~= s.remove(i));
    }
}

/// The entries of lowest priority are those that no entry undercuts.
pub open spec fn is_least(s: Seq<PriorityTarget>, priority: i64) -> bool {
    forall|j: int| 0 <= j < s.len() ==> priority <= s[j].priority
}

/// The coordinates of the entries of `s` that have the lowest priority in `s`, in the order
/// of the entries.
pub open spec fn top_cords(s: Seq<PriorityTarget>) -> Seq<Cord> {
    s.filter(|e: PriorityTarget| is_least(s, e.priority)).map_values(|e: PriorityTarget| e.cord)
}

impl PriorityTargets {
    /// The coordinates that share the lowest priority among `priority_targets`.
    pub fn top_priority_targets(priority_targets: &Vec<PriorityTarget>) -> (cords: Vec<Cord>)
        ensures
            cords@ == top_cords(priority_targets@),
    {
        let ghost s = priority_targets@;
        let mut cords: Vec<Cord> = Vec::new();
        if priority_targets.len() == 0 {
            assert(cords@ =~= top_cords(s));
            return cords;
        }
        let mut least: i64 = priority_targets[0].priority;
        let mut k: usize = 1;
        while k < priority_targets.len()
            invariant
                s == priority_targets@,
                1 <= k <= s.len(),
                forall|j: int| 0 <= j < k ==> least <= s[j].priority,
                exists|j: int| 0 <= j < k && s[j].priority == least,
            decreases s.len() - k,
        {
            if priority_targets[k].priority < least {
                least = priority_targets[k].priority;
            }
            k = k + 1;
        }
        let ghost pick = |e: PriorityTarget| is_least(s, e.priority);
        let ghost cord = |e: PriorityTarget| e.cord;
        let mut i: usize = 0;
        assert(s.subrange(0, 0) =~= Seq::empty());
        while i < priority_targets.len()
            invariant
                s == priority_targets@,
                i <= s.len(),
                is_least(s, least),
                exists|j: int| 0 <= j < s.len() && s[j].priority == least,
                pick == |e: PriorityTarget| is_least(s, e.priority),
                cord == |e: PriorityTarget| e.cord,
                cords@ == s.subrange(0, i as int).filter(pick).map_values(cord),
            decreases s.len() - i,
        {
            broadcast use vstd::seq_lib::group_filter_ensures;

            let e = priority_targets[i];
            proof {
                let head = s.subrange(0, i as int);
                assert(s.subrange(0, i + 1) =~= head.push(s[i as int]));
                head.lemma_filter_push(s[i as int], pick);
                assert(pick(s[i as int]) == (s[i as int].priority == least)) by {
                    let j = choose|j: int| 0 <= j < s.len() && s[j].priority == least;
                    assert(least <= s[i as int].priority);
                }
                if pick(s[i as int]) {
                    head.filter(pick).lemma_push_map_commute(cord, s[i as int]);
                }
            }
            if e.priority == least {
                cords.push(e.cord);
            }
            i = i + 1;
        }
        assert(s.subrange(0, s.len() as int) =~= s);
        cords
    }

    /// Takes the entry for `cord` out of the queue, if there is one.
    pub fn remove(&mut self, cord: Cord)
        requires
            old(self).wf(),
        ensures
            final(self).wf(),
            has_cord(old(self).priority_targets@, cord) ==> exists|i: int|
                0 <= i < old(self).priority_targets.len() && old(self).priority_targets[i].cord
                    == cord && final(self).priority_targets@ == old(self).priority_targets@.remove(
                    i,
                ),
            !has_cord(old(self).priority_targets@, cord) ==> final(self).priority_targets@ == old(
                self,
            ).priority_targets@,
            forall|c: Cord|
                has_cord(final(self).priority_targets@, c) <==> (c != cord && has_cord(
                    old(self).priority_targets@,
                    c,
                )),
            final(self).priority_targets@ == without(old(self).priority_targets@, cord),
    {
        let ghost s = self.priority_targets@;
        let mut i: usize = 0;
        while i < self.priority_targets.len()
            invariant
                self.priority_targets@ == s,
                s == old(self).priority_targets@,
                targets_sorted(s) && cords_distinct(s),
                i <= s.len(),
                forall|j: int| 0 <= j < i ==> s[j].cord != cord,
            decreases s.len() - i,
        {
            if self.priority_targets[i].cord == cord {
                self.priority_targets.remove(i);
                proof {
                    let t = self.priority_targets@;
                    assert(t == s.remove(i as int));
                    lemma_without_at(s, cord, i as int);
                    assert forall|a: int, b: int| 0 <= a < b < t.len() implies target_lt(
                        t[a],
                        t[b],
                    ) && t[a].cord != t[b].cord by {
                        let a0 = if a < i { a } else { a + 1 };
                        let b0 = if b < i { b } else { b + 1 };
                        assert(t[a] == s[a0] && t[b] == s[b0]);
                    }
                    assert(has_cord(s, cord));
                    assert forall|c: Cord| has_cord(t, c) <==> (c != cord && has_cord(
                        s,
                        c,
                    )) by {
                        if has_cord(t, c) {
                            let k = choose|k: int| 0 <= k < t.len() && t[k].cord == c;
                            let k0 = if k < i { k } else { k + 1 };
                            assert(t[k] == s[k0]);
                            assert(s[k0].cord == c);
                            assert(k0 != i);
                            if k0 < i {
                                assert(s[k0].cord != s[i as int].cord);
                            } else {
                                assert(s[i as int].cord != s[k0].cord);
                            }
                        }
                        if c != cord && has_cord(s, c) {
                            let k = choose|k: int| 0 <= k < s.len() && s[k].cord == c;
                            if k < i {
                                assert(t[k].cord == c);
                            } else {
                                assert(t[k - 1].cord == c);
                            }
                        }
                    }
                }
                return ;
            }
            i = i + 1;
        }
        proof {
            lemma_without_none(s, cord);
        }
    }

    /// Whether no target is left.
    pub fn is_empty(&self) -> (b: bool)
        ensures
            b == (self.priority_targets@.len() == 0),
    {
        self.priority_targets.len() == 0
    }
}

} // verus!
