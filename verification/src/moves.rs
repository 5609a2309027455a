use crate::bot::Cmd;
use crate::geometry::{adjacent, Cord, CordDiff, LongLinear, Near, ShortLinear};
use crate::grid::MAX_SIDE;
use vstd::prelude::*;

verus! {

/// A displacement in mathematical integers.
pub struct Shift {
    pub x: int,
    pub y: int,
    pub z: int,
}

impl Shift {
    /// The sum of two displacements.
    pub open spec fn plus(self, o: Shift) -> Shift {
        Shift { x: self.x + o.x, y: self.y + o.y, z: self.z + o.z }
    }

    /// The displacement `d` in mathematical integers.
    pub open spec fn of(d: CordDiff) -> Shift {
        Shift { x: d.dx as int, y: d.dy as int, z: d.dz as int }
    }

    /// No displacement.
    pub open spec fn zero() -> Shift {
        Shift { x: 0, y: 0, z: 0 }
    }
}

/// By how much a command moves the bot that carries it out.
pub open spec fn cmd_shift(cmd: Cmd) -> Shift {
    match cmd {
        Cmd::SMove(lld) => Shift::of(lld.0),
        Cmd::LMove(sld1, sld2) => Shift::of(sld1.0).plus(Shift::of(sld2.0)),
        _ => Shift::zero(),
    }
}

/// By how much a sequence of commands, carried out by one bot, moves it.
pub open spec fn displacement(cmds: Seq<Cmd>) -> Shift
    decreases cmds.len(),
{
    if cmds.len() == 0 {
        Shift::zero()
    } else {
        cmd_shift(cmds[0]).plus(displacement(cmds.drop_first()))
    }
}

/// Whether the components of `a` and `b` can be added within `i32`.
pub open spec fn joins(a: CordDiff, b: CordDiff) -> bool {
    &&& i32::MIN <= a.dx + b.dx <= i32::MAX
    &&& i32::MIN <= a.dy + b.dy <= i32::MAX
    &&& i32::MIN <= a.dz + b.dz <= i32::MAX
}

/// The sum of two displacements.
pub open spec fn joined(a: CordDiff, b: CordDiff) -> CordDiff {
    CordDiff { dx: (a.dx + b.dx) as i32, dy: (a.dy + b.dy) as i32, dz: (a.dz + b.dz) as i32 }
}

/// Two straight moves in a row become one where their sum is a straight move of at most
/// fifteen cells.
pub open spec fn merges(a: CordDiff, b: CordDiff) -> bool {
    joins(a, b) && joined(a, b).long_linear()
}

/// Two straight moves in a row become one move round a corner where each is at most five
/// cells long and their sum is not straight.
pub open spec fn turns(a: CordDiff, b: CordDiff) -> bool {
    a.spec_mlen() <= 5 && b.spec_mlen() <= 5 && !joined(a, b).linear()
}

/// The first pass over the commands that follow `prev`: straight moves are merged while
/// their sum stays a straight move of at most fifteen cells.
pub open spec fn fold_smove(prev: Cmd, rest: Seq<Cmd>) -> Seq<Cmd>
    decreases rest.len(),
{
    if rest.len() == 0 {
        seq![prev]
    } else {
        match (prev, rest[0]) {
            (Cmd::SMove(lld1), Cmd::SMove(lld2)) if merges(lld1.0, lld2.0) => fold_smove(
                Cmd::SMove(LongLinear(joined(lld1.0, lld2.0))),
                rest.drop_first(),
            ),
            _ => seq![prev] + fold_smove(rest[0], rest.drop_first()),
        }
    }
}

/// The second pass: two straight moves in a row that turn a corner become one command. The
/// command that results is not joined with what follows it.
pub open spec fn fold_lmove(prev: Cmd, rest: Seq<Cmd>) -> Seq<Cmd>
    decreases rest.len(),
{
    if rest.len() == 0 {
        seq![prev]
    } else {
        match (prev, rest[0]) {
            (Cmd::SMove(lld1), Cmd::SMove(lld2)) if turns(lld1.0, lld2.0) => fold_lmove(
                Cmd::LMove(ShortLinear(lld1.0), ShortLinear(lld2.0)),
                rest.drop_first(),
            ),
            _ => seq![prev] + fold_lmove(rest[0], rest.drop_first()),
        }
    }
}

/// The commands after the first pass.
pub open spec fn smove_compressed(cmds: Seq<Cmd>) -> Seq<Cmd> {
    if cmds.len() == 0 {
        cmds
    } else {
        fold_smove(cmds[0], cmds.drop_first())
    }
}

/// The commands after the second pass.
pub open spec fn lmove_compressed(cmds: Seq<Cmd>) -> Seq<Cmd> {
    if cmds.len() == 0 {
        cmds
    } else {
        fold_lmove(cmds[0], cmds.drop_first())
    }
}

/// Both passes, the first and then the second.
pub open spec fn compressed(cmds: Seq<Cmd>) -> Seq<Cmd> {
    lmove_compressed(smove_compressed(cmds))
}

/// A straight move of at most fifteen cells.
pub open spec fn is_straight(cmd: Cmd) -> bool {
    cmd matches Cmd::SMove(lld) && lld.0.long_linear()
}

/// A straight move of at most fifteen cells, or a move round a corner with at most five
/// cells each way.
pub open spec fn is_move(cmd: Cmd) -> bool {
    is_straight(cmd) || (cmd matches Cmd::LMove(sld1, sld2) && sld1.0.short_linear()
        && sld2.0.short_linear())
}

/// One cell of a path that a search has found, with the number of steps that lead to it
/// and the place of the cell before it in the list of cells.
#[derive(Debug, Clone, Copy, PartialEq)]
pub struct MoveStep {
    pub len: usize,
    pub c: Cord,
    pub prev: Option<usize>,
}

/// Whether the list holds the cell `c`.
pub open spec fn node_at(steps: Seq<MoveStep>, c: Cord) -> bool {
    exists|j: int| 0 <= j < steps.len() && steps[j].c == c
}

/// Whether the list holds the cell `c` with at most `n` steps counted.
pub open spec fn reached_within(steps: Seq<MoveStep>, c: Cord, n: int) -> bool {
    exists|j: int| 0 <= j < steps.len() && steps[j].c == c && steps[j].len <= n
}

/// A cell that a list holds is held by the list with one more cell.
pub proof fn lemma_reached_push(steps: Seq<MoveStep>, e: MoveStep, c: Cord, n: int)
    requires
        reached_within(steps, c, n),
    ensures
        reached_within(steps.push(e), c, n),
{
    let j = choose|j: int| 0 <= j < steps.len() && steps[j].c == c && steps[j].len <= n;
    assert(steps.push(e)[j] == steps[j]);
}

/// The commands that move a bot along a path.
pub struct MoveCmds {
    pub cmds: Vec<Cmd>,
}

/// A path to a cell next to a target: the commands, the cell where they end, the target,
/// and the displacement from that cell to the target.
pub struct MoveToNear {
    pub move_cmds: MoveCmds,
    pub final_pos: Cord,
    pub target_nd: Near,
    pub target: Cord,
}

/// The cell at position `i` lies in the grid; it stands alone as the first cell of a path,
/// or it comes after the cell before it, one step further on and next to it.
pub open spec fn link_ok(steps: Seq<MoveStep>, i: int) -> bool {
    &&& steps[i].c.in_range(MAX_SIDE as int)
    &&& match steps[i].prev {
        None => steps[i].len == 0,
        Some(p) => p < i && steps[i].len == steps[p as int].len + 1 && adjacent(
            steps[p as int].c,
            steps[i].c,
        ),
    }
}

/// Every cell of the list is linked to the cell before it, if it has one.
pub open spec fn chain_wf(steps: Seq<MoveStep>) -> bool {
    forall|i: int| 0 <= i < steps.len() ==> #[trigger] link_ok(steps, i)
}

/// The unit moves that lead from the first cell of its path to the cell at position `i`.
pub open spec fn chain_units(steps: Seq<MoveStep>, i: int) -> Seq<Cmd>
    decreases i,
{
    if 0 <= i < steps.len() {
        match steps[i].prev {
            Some(p) if p < i => chain_units(steps, p as int).push(
                Cmd::SMove(LongLinear(steps[i].c.diff_from(steps[p as int].c))),
            ),
            _ => Seq::empty(),
        }
    } else {
        Seq::empty()
    }
}

/// The cell where the path to the cell at position `i` begins.
pub open spec fn chain_root(steps: Seq<MoveStep>, i: int) -> Cord
    decreases i,
{
    if 0 <= i < steps.len() {
        match steps[i].prev {
            Some(p) if p < i => chain_root(steps, p as int),
            _ => steps[i].c,
        }
    } else {
        Cord { x: 0, y: 0, z: 0 }
    }
}

/// The path to a cell has as many unit moves as the cell counts steps, each a unit step.
pub proof fn lemma_chain_units(steps: Seq<MoveStep>, i: int)
    requires
        chain_wf(steps),
        0 <= i < steps.len(),
    ensures
        chain_units(steps, i).len() == steps[i].len,
        forall|k: int|
            0 <= k < chain_units(steps, i).len() ==> is_straight(
                #[trigger] chain_units(steps, i)[k],
            ),
    decreases i,
{
    assert(link_ok(steps, i));
    match steps[i].prev {
        Some(p) => {
            assert(link_ok(steps, p as int));
            lemma_chain_units(steps, p as int);
            let d = steps[i].c.diff_from(steps[p as int].c);
            assert(d.spec_mlen() == 1);
        },
        None => {},
    }
}


/// The displacement of two sequences in a row is the sum of their displacements.
pub proof fn lemma_displacement_concat(a: Seq<Cmd>, b: Seq<Cmd>)
    ensures
        displacement(a + b) == displacement(a).plus(displacement(b)),
    decreases a.len(),
{
    if a.len() == 0 {
        assert(a + b =~= b);
    } else {
        lemma_displacement_concat(a.drop_first(), b);
        assert((a + b).drop_first() =~= a.drop_first() + b);
    }
}

/// A command at the end adds its own displacement.
pub proof fn lemma_displacement_push(cmds: Seq<Cmd>, cmd: Cmd)
    ensures
        displacement(cmds.push(cmd)) == displacement(cmds).plus(cmd_shift(cmd)),
{
    lemma_single(cmd);
    lemma_displacement_concat(cmds, seq![cmd]);
    assert(cmds + seq![cmd] =~= cmds.push(cmd));
}

proof fn lemma_single(cmd: Cmd)
    ensures
        displacement(seq![cmd]) == cmd_shift(cmd),
{
    reveal_with_fuel(displacement, 2);
    assert(seq![cmd].drop_first() =~= Seq::<Cmd>::empty());
}

proof fn lemma_fold_smove_shift(prev: Cmd, rest: Seq<Cmd>)
    ensures
        displacement(fold_smove(prev, rest)) == cmd_shift(prev).plus(displacement(rest)),
    decreases rest.len(),
{
    if rest.len() == 0 {
        lemma_single(prev);
    } else {
        let tail = rest.drop_first();
        match (prev, rest[0]) {
            (Cmd::SMove(lld1), Cmd::SMove(lld2)) if merges(lld1.0, lld2.0) => {
                lemma_fold_smove_shift(Cmd::SMove(LongLinear(joined(lld1.0, lld2.0))), tail);
            },
            _ => {
                lemma_fold_smove_shift(rest[0], tail);
                lemma_displacement_concat(seq![prev], fold_smove(rest[0], tail));
                lemma_single(prev);
            },
        }
    }
}

proof fn lemma_fold_lmove_shift(prev: Cmd, rest: Seq<Cmd>)
    ensures
        displacement(fold_lmove(prev, rest)) == cmd_shift(prev).plus(displacement(rest)),
    decreases rest.len(),
{
    if rest.len() == 0 {
        lemma_single(prev);
    } else {
        let tail = rest.drop_first();
        match (prev, rest[0]) {
            (Cmd::SMove(lld1), Cmd::SMove(lld2)) if turns(lld1.0, lld2.0) => {
                lemma_fold_lmove_shift(
                    Cmd::LMove(ShortLinear(lld1.0), ShortLinear(lld2.0)),
                    tail,
                );
            },
            _ => {
                lemma_fold_lmove_shift(rest[0], tail);
                lemma_displacement_concat(seq![prev], fold_lmove(rest[0], tail));
                lemma_single(prev);
            },
        }
    }
}

proof fn lemma_fold_smove_straight(prev: Cmd, rest: Seq<Cmd>)
    requires
        is_straight(prev),
        forall|k: int| 0 <= k < rest.len() ==> is_straight(#[trigger] rest[k]),
    ensures
        forall|k: int|
            0 <= k < fold_smove(prev, rest).len() ==> is_straight(
                #[trigger] fold_smove(prev, rest)[k],
            ),
    decreases rest.len(),
{
    let out = fold_smove(prev, rest);
    if rest.len() == 0 {
        assert(out =~= seq![prev]);
    } else {
        let tail = rest.drop_first();
        assert(is_straight(rest[0]));
        assert forall|k: int| 0 <= k < tail.len() implies is_straight(#[trigger] tail[k]) by {
            assert(tail[k] == rest[k + 1]);
        }
        let lld1 = prev->SMove_0;
        let lld2 = rest[0]->SMove_0;
        if merges(lld1.0, lld2.0) {
            lemma_fold_smove_straight(Cmd::SMove(LongLinear(joined(lld1.0, lld2.0))), tail);
            assert(prev == Cmd::SMove(lld1) && rest[0] == Cmd::SMove(lld2));
            assert(out == fold_smove(Cmd::SMove(LongLinear(joined(lld1.0, lld2.0))), tail));
        } else {
            lemma_fold_smove_straight(rest[0], tail);
            let sub = fold_smove(rest[0], tail);
            assert(out == seq![prev] + sub);
            assert forall|k: int| 0 <= k < out.len() implies is_straight(#[trigger] out[k]) by {
                if k > 0 {
                    assert(out[k] == sub[k - 1]);
                }
            }
        }
    }
}

proof fn lemma_fold_lmove_moves(prev: Cmd, rest: Seq<Cmd>)
    requires
        is_move(prev),
        forall|k: int| 0 <= k < rest.len() ==> is_straight(#[trigger] rest[k]),
    ensures
        forall|k: int|
            0 <= k < fold_lmove(prev, rest).len() ==> is_move(#[trigger] fold_lmove(prev, rest)[k]),
    decreases rest.len(),
{
    let out = fold_lmove(prev, rest);
    if rest.len() == 0 {
        assert(out =~= seq![prev]);
    } else {
        let tail = rest.drop_first();
        assert(is_straight(rest[0]));
        assert forall|k: int| 0 <= k < tail.len() implies is_straight(#[trigger] tail[k]) by {
            assert(tail[k] == rest[k + 1]);
        }
        let lld2 = rest[0]->SMove_0;
        if prev is SMove && turns(prev->SMove_0.0, lld2.0) {
            let lld1 = prev->SMove_0;
            lemma_fold_lmove_moves(Cmd::LMove(ShortLinear(lld1.0), ShortLinear(lld2.0)), tail);
            assert(prev == Cmd::SMove(lld1) && rest[0] == Cmd::SMove(lld2));
            assert(out == fold_lmove(
                Cmd::LMove(ShortLinear(lld1.0), ShortLinear(lld2.0)),
                tail,
            ));
        } else {
            lemma_fold_lmove_moves(rest[0], tail);
            let sub = fold_lmove(rest[0], tail);
            assert(out == seq![prev] + sub);
            assert forall|k: int| 0 <= k < out.len() implies is_move(#[trigger] out[k]) by {
                if k > 0 {
                    assert(out[k] == sub[k - 1]);
                }
            }
        }
    }
}

/// Compression moves the bot by as much as the commands it was given.
pub proof fn lemma_compressed_displacement(cmds: Seq<Cmd>)
    ensures
        displacement(smove_compressed(cmds)) == displacement(cmds),
        displacement(lmove_compressed(cmds)) == displacement(cmds),
        displacement(compressed(cmds)) == displacement(cmds),
{
    if cmds.len() > 0 {
        lemma_fold_smove_shift(cmds[0], cmds.drop_first());
        lemma_fold_lmove_shift(cmds[0], cmds.drop_first());
    }
    let once = smove_compressed(cmds);
    if once.len() > 0 {
        lemma_fold_lmove_shift(once[0], once.drop_first());
    }
}

/// Compressed straight moves of at most fifteen cells are straight moves of at most fifteen
/// cells and moves round a corner of at most five cells each way.
pub proof fn lemma_compressed_valid(cmds: Seq<Cmd>)
    requires
        forall|k: int| 0 <= k < cmds.len() ==> is_straight(#[trigger] cmds[k]),
    ensures
        forall|k: int|
            0 <= k < smove_compressed(cmds).len() ==> is_straight(
                #[trigger] smove_compressed(cmds)[k],
            ),
        forall|k: int|
            0 <= k < compressed(cmds).len() ==> is_move(#[trigger] compressed(cmds)[k]),
        cmds.len() > 0 ==> compressed(cmds).len() > 0,
{
    if cmds.len() > 0 {
        let tail = cmds.drop_first();
        assert forall|k: int| 0 <= k < tail.len() implies is_straight(#[trigger] tail[k]) by {
            assert(tail[k] == cmds[k + 1]);
        }
        lemma_fold_smove_straight(cmds[0], tail);
        let once = smove_compressed(cmds);
        lemma_fold_nonempty(cmds[0], tail);
        let rest = once.drop_first();
        assert forall|k: int| 0 <= k < rest.len() implies is_straight(#[trigger] rest[k]) by {
            assert(rest[k] == once[k + 1]);
        }
        lemma_fold_lmove_moves(once[0], rest);
        lemma_fold_nonempty(once[0], rest);
    }
}

proof fn lemma_fold_nonempty(prev: Cmd, rest: Seq<Cmd>)
    ensures
        fold_smove(prev, rest).len() > 0,
        fold_lmove(prev, rest).len() > 0,
    decreases rest.len(),
{
    if rest.len() > 0 {
        lemma_fold_nonempty(rest[0], rest.drop_first());
        match (prev, rest[0]) {
            (Cmd::SMove(lld1), Cmd::SMove(lld2)) => {
                lemma_fold_nonempty(
                    Cmd::SMove(LongLinear(joined(lld1.0, lld2.0))),
                    rest.drop_first(),
                );
                lemma_fold_nonempty(
                    Cmd::LMove(ShortLinear(lld1.0), ShortLinear(lld2.0)),
                    rest.drop_first(),
                );
            },
            _ => {},
        }
    }
}

/// The sum of two displacements where it is a straight move of at most fifteen cells.
fn merged(a: CordDiff, b: CordDiff) -> (total: Option<CordDiff>)
    ensures
        merges(a, b) ==> total == Some(joined(a, b)),
        !merges(a, b) ==> total is None,
{
    let x: i64 = a.dx as i64 + b.dx as i64;
    let y: i64 = a.dy as i64 + b.dy as i64;
    let z: i64 = a.dz as i64 + b.dz as i64;
    if -15 <= x && x <= 15 && -15 <= y && y <= 15 && -15 <= z && z <= 15 {
        let total = CordDiff::new(x as i32, y as i32, z as i32);
        if total.is_long_linear() {
            Some(total)
        } else {
            None
        }
    } else {
        None
    }
}

/// Whether two straight moves in a row turn a corner with at most five cells each way.
fn turning(a: CordDiff, b: CordDiff) -> (res: bool)
    ensures
        res == turns(a, b),
{
    if a.mlen() <= 5 && b.mlen() <= 5 {
        let total = CordDiff::new(a.dx + b.dx, a.dy + b.dy, a.dz + b.dz);
        !total.is_linear()
    } else {
        false
    }
}

impl MoveCmds {
    /// The compressed commands that lead along the path to the cell at position `last`.
    pub fn from_steps(steps: &Vec<MoveStep>, last: usize) -> (m: MoveCmds)
        requires
            chain_wf(steps@),
            last < steps.len(),
        ensures
            m.cmds@ == compressed(chain_units(steps@, last as int)),
    {
        let n = steps[last].len;
        let ghost units = chain_units(steps@, last as int);
        let mut moves: Vec<Cmd> = Vec::new();
        let mut f: usize = 0;
        while f < n
            invariant
                f <= n,
                moves.len() == f,
            decreases n - f,
        {
            moves.push(Cmd::Wait);
            f = f + 1;
        }
        let mut cur = last;
        let mut k = n;
        proof {
            lemma_chain_units(steps@, last as int);
        }
        while k > 0
            invariant
                chain_wf(steps@),
                cur < steps.len(),
                k == steps[cur as int].len,
                k <= n,
                moves.len() == n,
                units.len() == n,
                forall|j: int| k <= j < n ==> moves[j] == units[j],
                forall|j: int| 0 <= j < k ==> units[j] == chain_units(steps@, cur as int)[j],
            decreases k,
        {
            let step = steps[cur];
            proof {
                assert(link_ok(steps@, cur as int));
                assert(link_ok(steps@, step.prev->0 as int));
                lemma_chain_units(steps@, step.prev->0 as int);
                lemma_chain_units(steps@, cur as int);
            }
            let p = step.prev.unwrap();
            let before = steps[p];
            moves.set(k - 1, Cmd::SMove(LongLinear(step.c - before.c)));
            cur = p;
            k = k - 1;
        }
        assert(moves@ =~= units);
        MoveCmds::new(moves)
    }

    /// The commands after both passes of compression.
    pub fn new(cmds: Vec<Cmd>) -> (m: MoveCmds)
        ensures
            m.cmds@ == compressed(cmds@),
    {
        MoveCmds { cmds: MoveCmds::compress(cmds) }
    }

    /// Both passes of compression, the first and then the second.
    pub fn compress(cmd: Vec<Cmd>) -> (res: Vec<Cmd>)
        ensures
            res@ == compressed(cmd@),
    {
        MoveCmds::compress_lmove(MoveCmds::compress_smove(cmd))
    }

    /// Merges straight moves in a row while their sum is a straight move of at most fifteen
    /// cells.
    pub fn compress_smove(cmds: Vec<Cmd>) -> (res: Vec<Cmd>)
        ensures
            res@ == smove_compressed(cmds@),
    {
        if cmds.len() == 0 {
            return cmds;
        }
        let mut res: Vec<Cmd> = Vec::new();
        let mut prev = cmds[0];
        let mut i: usize = 1;
        assert(cmds@.subrange(1, cmds.len() as int) =~= cmds@.drop_first());
        while i < cmds.len()
            invariant
                1 <= i <= cmds.len(),
                res@ + fold_smove(prev, cmds@.subrange(i as int, cmds.len() as int))
                    == smove_compressed(cmds@),
            decreases cmds.len() - i,
        {
            let cmd = cmds[i];
            let ghost rest = cmds@.subrange(i as int, cmds.len() as int);
            let ghost tail = cmds@.subrange(i as int + 1, cmds.len() as int);
            let ghost before = res@;
            let ghost was = prev;
            proof {
                assert(rest[0] == cmd);
                assert(rest.drop_first() =~= tail);
            }
            match (prev, cmd) {
                (Cmd::SMove(lld1), Cmd::SMove(lld2)) => {
                    match merged(lld1.0, lld2.0) {
                        Some(total) => {
                            prev = Cmd::SMove(LongLinear(total));
                        },
                        None => {
                            res.push(Cmd::SMove(lld1));
                            prev = Cmd::SMove(lld2);
                        },
                    }
                },
                (a, b) => {
                    res.push(a);
                    prev = b;
                },
            }
            assert(res@ + fold_smove(prev, tail) =~= before + fold_smove(was, rest)) by {
                assert(before.push(was) + fold_smove(cmd, tail) =~= before + (seq![was]
                    + fold_smove(cmd, tail)));
            }
            i = i + 1;
        }
        let ghost before = res@;
        res.push(prev);
        assert(res@ =~= before + fold_smove(prev, cmds@.subrange(i as int, cmds.len() as int)));
        res
    }

    /// Joins two straight moves in a row that turn a corner, each of at most five cells,
    /// into one command.
    pub fn compress_lmove(cmds: Vec<Cmd>) -> (res: Vec<Cmd>)
        ensures
            res@ == lmove_compressed(cmds@),
    {
        if cmds.len() == 0 {
            return cmds;
        }
        let mut res: Vec<Cmd> = Vec::new();
        let mut prev = cmds[0];
        let mut i: usize = 1;
        assert(cmds@.subrange(1, cmds.len() as int) =~= cmds@.drop_first());
        while i < cmds.len()
            invariant
                1 <= i <= cmds.len(),
                res@ + fold_lmove(prev, cmds@.subrange(i as int, cmds.len() as int))
                    == lmove_compressed(cmds@),
            decreases cmds.len() - i,
        {
            let cmd = cmds[i];
            let ghost rest = cmds@.subrange(i as int, cmds.len() as int);
            let ghost tail = cmds@.subrange(i as int + 1, cmds.len() as int);
            let ghost before = res@;
            let ghost was = prev;
            proof {
                assert(rest[0] == cmd);
                assert(rest.drop_first() =~= tail);
            }
            match (prev, cmd) {
                (Cmd::SMove(lld1), Cmd::SMove(lld2)) => {
                    if turning(lld1.0, lld2.0) {
                        prev = Cmd::LMove(ShortLinear(lld1.0), ShortLinear(lld2.0));
                    } else {
                        res.push(Cmd::SMove(lld1));
                        prev = Cmd::SMove(lld2);
                    }
                },
                (a, b) => {
                    res.push(a);
                    prev = b;
                },
            }
            assert(res@ + fold_lmove(prev, tail) =~= before + fold_lmove(was, rest)) by {
                assert(before.push(was) + fold_lmove(cmd, tail) =~= before + (seq![was]
                    + fold_lmove(cmd, tail)));
            }
            i = i + 1;
        }
        let ghost before = res@;
        res.push(prev);
        assert(res@ =~= before + fold_lmove(prev, cmds@.subrange(i as int, cmds.len() as int)));
        res
    }
}


impl MoveToNear {
    /// The way to the cell at position `at`, from which `target` is to be worked.
    pub fn from_steps(steps: &Vec<MoveStep>, at: usize, target: Cord) -> (m: MoveToNear)
        requires
            chain_wf(steps@),
            at < steps.len(),
            target.in_range(MAX_SIDE as int),
        ensures
            m.move_cmds.cmds@ == compressed(chain_units(steps@, at as int)),
            m.final_pos == steps[at as int].c,
            m.target == target,
            m.target_nd.0 == target.diff_from(steps[at as int].c),
    {
        let move_cmds = MoveCmds::from_steps(steps, at);
        assert(link_ok(steps@, at as int));
        let final_pos = steps[at].c;
        MoveToNear { move_cmds, final_pos, target_nd: Near(target - final_pos), target }
    }
}

} // verus!
