use crate::bot::{BotId, BotView, Cmd};
use crate::geometry::{Cord, CordDiff};
use crate::grid::{lemma_volume_bound, MAX_SIDE};
use crate::state::{
    along, has_bot_at, joined_in, lookup, place_of, places, span, survivors, SystemView,
};
use crate::system::{MAX_COST, MAX_TRACE};
use crate::target::{
    cords_distinct, has_cord, is_least, lemma_without_at, lemma_without_none, PriorityTarget,
    targets_sorted, top_cords, without,
};
use vstd::prelude::*;

verus! {

/// A straight move ends at the last of its cells, and each of its cells lies between its ends.
pub proof fn lemma_along(start: Cord, d: CordDiff, k: int)
    requires
        d.linear(),
        start.in_range(MAX_SIDE as int),
        0 <= k <= d.spec_clen() <= 15,
    ensures
        along(start, d, d.spec_clen()) == start.offset(d),
        d.spec_clen() == d.spec_mlen(),
        span(start, start.offset(d)).contains(along(start, d, k)),
        along(start, d, 0) == start,
        k < d.spec_clen() ==> along(start, d, k + 1) == along(start, d, k).offset(d.unit()),
{
}

/// A box with both corners in the grid lies in the grid.
pub proof fn lemma_span_in_range(c1: Cord, c2: Cord, r: int)
    requires
        c1.in_range(r),
        c2.in_range(r),
    ensures
        forall|c: Cord| span(c1, c2).contains(c) ==> c.in_range(r),
{
}

/// What a list of bots owes: places in the grid, no place twice, ascending identities.
pub open spec fn team_ok(s: Seq<BotView>, r: int) -> bool {
    &&& forall|i: int| 0 <= i < s.len() ==> (#[trigger] s[i]).pos.in_range(r)
    &&& forall|i: int, j: int| 0 <= i < j < s.len() ==> (#[trigger] s[i]).pos != (#[trigger] s[j]).pos
    &&& forall|i: int, j: int| 0 <= i <= j < s.len() ==> (#[trigger] s[i]).bid <= (#[trigger] s[j]).bid
}

/// What a list of newcomers owes: places in the grid, no place twice.
pub open spec fn crowd_ok(s: Seq<BotView>, r: int) -> bool {
    &&& forall|i: int| 0 <= i < s.len() ==> (#[trigger] s[i]).pos.in_range(r)
    &&& forall|i: int, j: int| 0 <= i < j < s.len() ==> (#[trigger] s[i]).pos != (#[trigger] s[j]).pos
}

/// No bot of `a` stands where a bot of `b` stands.
pub open spec fn apart(a: Seq<BotView>, b: Seq<BotView>) -> bool {
    forall|i: int, j: int|
        0 <= i < a.len() && 0 <= j < b.len() ==> (#[trigger] a[i]).pos != (#[trigger] b[j]).pos
}

/// The bots that are not removed are some of the bots, in their order.
pub proof fn lemma_survivors(s: Seq<BotView>, removed: Seq<BotId>, r: int)
    ensures
        survivors(s, removed).len() <= s.len(),
        forall|k: int|
            0 <= k < survivors(s, removed).len() ==> s.contains(#[trigger] survivors(s, removed)[k]),
        forall|i: int|
            0 <= i < s.len() && !removed.contains(s[i].bid) ==> survivors(s, removed).contains(
                #[trigger] s[i],
            ),
        crowd_ok(s, r) ==> crowd_ok(survivors(s, removed), r),
        team_ok(s, r) ==> team_ok(survivors(s, removed), r),
    decreases s.len(),
{
    let keep = |b: BotView| !removed.contains(b.bid);
    let f = s.filter(keep);
    if s.len() == 0 {
        s.lemma_filter_len(keep);
    } else {
        let init = s.drop_last();
        let last = s.last();
        let g = init.filter(keep);
        assert(s =~= init.push(last));
        init.lemma_filter_push(last, keep);
        lemma_survivors(init, removed, r);
        assert forall|k: int| 0 <= k < f.len() implies s.contains(#[trigger] f[k]) by {
            if k < g.len() {
                assert(f[k] == g[k]);
                assert(init.contains(g[k]));
                let i = choose|i: int| 0 <= i < init.len() && init[i] == g[k];
                assert(s[i] == f[k]);
            } else {
                assert(f[k] == last);
                assert(s[s.len() - 1] == last);
            }
        }
        assert forall|i: int| 0 <= i < s.len() && !removed.contains(s[i].bid) implies f.contains(
            #[trigger] s[i],
        ) by {
            if i < init.len() {
                assert(init[i] == s[i]);
                assert(g.contains(init[i]));
                let k = choose|k: int| 0 <= k < g.len() && g[k] == init[i];
                assert(f[k] == s[i]);
            } else {
                assert(f[f.len() - 1] == s[i]);
            }
        }
        if crowd_ok(s, r) {
            assert(crowd_ok(init, r)) by {
                assert forall|i: int, j: int| 0 <= i < j < init.len() implies (
                #[trigger] init[i]).pos != (#[trigger] init[j]).pos by {
                    assert(s[i].pos != s[j].pos);
                }
                assert forall|i: int| 0 <= i < init.len() implies (#[trigger] init[i]).pos.in_range(
                    r,
                ) by {
                    assert(s[i].pos.in_range(r));
                }
            }
            assert forall|i: int, j: int| 0 <= i < j < f.len() implies (#[trigger] f[i]).pos != (
            #[trigger] f[j]).pos by {
                if j < g.len() {
                    assert(g[i].pos != g[j].pos);
                } else {
                    assert(init.contains(g[i]));
                    let a = choose|a: int| 0 <= a < init.len() && init[a] == g[i];
                    assert(s[a].pos != s[s.len() - 1].pos);
                }
            }
            assert forall|i: int| 0 <= i < f.len() implies (#[trigger] f[i]).pos.in_range(r) by {
                let a = choose|a: int| 0 <= a < s.len() && s[a] == f[i];
                assert(s[a].pos.in_range(r));
            }
        }
        if team_ok(s, r) {
            assert(crowd_ok(s, r));
            assert(team_ok(init, r)) by {
                assert forall|i: int, j: int| 0 <= i <= j < init.len() implies (
                #[trigger] init[i]).bid <= (#[trigger] init[j]).bid by {
                    assert(s[i].bid <= s[j].bid);
                }
            }
            assert forall|i: int, j: int| 0 <= i <= j < f.len() implies (#[trigger] f[i]).bid <= (
            #[trigger] f[j]).bid by {
                if j < g.len() {
                    assert(g[i].bid <= g[j].bid);
                } else if i < g.len() {
                    assert(init.contains(g[i]));
                    let a = choose|a: int| 0 <= a < init.len() && init[a] == g[i];
                    assert(s[a].bid <= s[s.len() - 1].bid);
                }
            }
        }
    }
}

/// In a list with ascending identities, the place of a newcomer parts the bots whose
/// identity is not larger from those whose identity is.
pub proof fn lemma_place_of(s: Seq<BotView>, bid: BotId)
    requires
        forall|i: int, j: int| 0 <= i <= j < s.len() ==> (#[trigger] s[i]).bid <= (#[trigger] s[j]).bid,
    ensures
        0 <= place_of(s, bid) <= s.len(),
        forall|i: int| 0 <= i < place_of(s, bid) ==> (#[trigger] s[i]).bid <= bid,
        forall|i: int| place_of(s, bid) <= i < s.len() ==> (#[trigger] s[i]).bid > bid,
    decreases s.len(),
{
    if s.len() > 0 {
        let init = s.drop_last();
        assert forall|i: int, j: int| 0 <= i <= j < init.len() implies (#[trigger] init[i]).bid <= (
        #[trigger] init[j]).bid by {
            assert(s[i].bid <= s[j].bid);
        }
        lemma_place_of(init, bid);
        if s.last().bid <= bid {
            assert forall|i: int| 0 <= i < s.len() implies (#[trigger] s[i]).bid <= bid by {
                assert(s[i].bid <= s[s.len() - 1].bid);
            }
        } else {
            assert forall|i: int| 0 <= i < place_of(s, bid) implies (#[trigger] s[i]).bid <= bid by {
                assert(init[i].bid <= bid);
            }
            assert forall|i: int| place_of(s, bid) <= i < s.len() implies (#[trigger] s[i]).bid
                > bid by {
                if i < init.len() {
                    assert(init[i].bid > bid);
                }
            }
        }
    }
}

/// Newcomers that join a list of bots make a list that owes nothing: it holds the bots and
/// the newcomers and no others.
pub proof fn lemma_joined_in(s: Seq<BotView>, newcomers: Seq<BotView>, r: int)
    requires
        team_ok(s, r),
        crowd_ok(newcomers, r),
        apart(s, newcomers),
    ensures
        team_ok(joined_in(s, newcomers), r),
        joined_in(s, newcomers).len() == s.len() + newcomers.len(),
        forall|b: BotView|
            joined_in(s, newcomers).contains(b) <==> (s.contains(b) || newcomers.contains(b)),
    decreases newcomers.len(),
{
    let out = joined_in(s, newcomers);
    if newcomers.len() > 0 {
        let init = newcomers.drop_last();
        let last = newcomers.last();
        let head = joined_in(s, init);
        assert(crowd_ok(init, r)) by {
            assert forall|i: int, j: int| 0 <= i < j < init.len() implies (#[trigger] init[i]).pos
                != (#[trigger] init[j]).pos by {
                assert(newcomers[i].pos != newcomers[j].pos);
            }
            assert forall|i: int| 0 <= i < init.len() implies (#[trigger] init[i]).pos.in_range(
                r,
            ) by {
                assert(newcomers[i].pos.in_range(r));
            }
        }
        assert(apart(s, init)) by {
            assert forall|i: int, j: int| 0 <= i < s.len() && 0 <= j < init.len() implies (
            #[trigger] s[i]).pos != (#[trigger] init[j]).pos by {
                assert(s[i].pos != newcomers[j].pos);
            }
        }
        lemma_joined_in(s, init, r);
        lemma_place_of(head, last.bid);
        let at = place_of(head, last.bid);
        assert(out == head.insert(at, last));
        assert(newcomers[newcomers.len() - 1] == last);
        assert forall|k: int| 0 <= k < head.len() implies (#[trigger] head[k]).pos != last.pos by {
            assert(head.contains(head[k]));
            if s.contains(head[k]) {
                let i = choose|i: int| 0 <= i < s.len() && s[i] == head[k];
                assert(s[i].pos != newcomers[newcomers.len() - 1].pos);
            } else {
                let j = choose|j: int| 0 <= j < init.len() && init[j] == head[k];
                assert(newcomers[j].pos != newcomers[newcomers.len() - 1].pos);
            }
        }
        assert forall|i: int| 0 <= i < out.len() implies (#[trigger] out[i]).pos.in_range(r) by {
            if i < at {
                assert(out[i] == head[i]);
            } else if i > at {
                assert(out[i] == head[i - 1]);
            }
        }
        assert forall|i: int, j: int| 0 <= i < j < out.len() implies (#[trigger] out[i]).pos != (
        #[trigger] out[j]).pos by {
            let a = if i < at { i } else { i - 1 };
            let b = if j < at { j } else { j - 1 };
            if i != at && j != at {
                assert(out[i] == head[a] && out[j] == head[b]);
                assert(head[a].pos != head[b].pos);
            } else if i == at {
                assert(out[j] == head[b]);
            } else {
                assert(out[i] == head[a]);
            }
        }
        assert forall|i: int, j: int| 0 <= i <= j < out.len() implies (#[trigger] out[i]).bid <= (
        #[trigger] out[j]).bid by {
            let a = if i < at { i } else { i - 1 };
            let b = if j < at { j } else { j - 1 };
            if i != at && j != at {
                assert(out[i] == head[a] && out[j] == head[b]);
                assert(head[a].bid <= head[b].bid);
            } else if i == at && j != at {
                assert(out[j] == head[b]);
                assert(head[b].bid > last.bid);
            } else if j == at && i != at {
                assert(out[i] == head[a]);
                assert(head[a].bid <= last.bid);
            }
        }
        assert forall|b: BotView| out.contains(b) <==> (s.contains(b) || newcomers.contains(b)) by {
            if out.contains(b) {
                let k = choose|k: int| 0 <= k < out.len() && out[k] == b;
                if k < at {
                    assert(head[k] == b);
                    assert(head.contains(b));
                } else if k > at {
                    assert(head[k - 1] == b);
                    assert(head.contains(b));
                }
                if init.contains(b) {
                    let j = choose|j: int| 0 <= j < init.len() && init[j] == b;
                    assert(newcomers[j] == b);
                }
            }
            if s.contains(b) || init.contains(b) {
                if init.contains(b) {
                    let j = choose|j: int| 0 <= j < init.len() && init[j] == b;
                    assert(newcomers[j] == b);
                }
                assert(head.contains(b));
                let k = choose|k: int| 0 <= k < head.len() && head[k] == b;
                if k < at {
                    assert(out[k] == b);
                } else {
                    assert(out[k + 1] == b);
                }
            }
            if newcomers.contains(b) {
                let j = choose|j: int| 0 <= j < newcomers.len() && newcomers[j] == b;
                if j < init.len() {
                    assert(init[j] == b);
                    assert(init.contains(b));
                } else {
                    assert(out[at] == b);
                }
            }
        }
    }
}


/// Closing a step in which every bot has had its turn gives a state in which the next
/// command can be taken.
pub proof fn lemma_close_inv(n: SystemView)
    requires
        n.inv_open(),
        n.bot_index == n.bots.len(),
    ensures
        n.closed_step().inv_closed(),
        !n.closed_step().halted() ==> n.closed_step().inv(),
{
    reveal(SystemView::core_inv);
    reveal(SystemView::bots_inv);
    reveal(SystemView::reserved_inv);
    let r = n.r;
    let stay = survivors(n.bots, n.removed);
    let come = survivors(n.new_bots, n.removed);
    let out = n.closed_step();
    lemma_volume_bound(r);
    lemma_open_facts(n);
    assert(team_ok(n.bots, r));
    assert(crowd_ok(n.new_bots, r));
    lemma_survivors(n.bots, n.removed, r);
    lemma_survivors(n.new_bots, n.removed, r);
    assert(apart(stay, come)) by {
        assert forall|i: int, j: int| 0 <= i < stay.len() && 0 <= j < come.len() implies (
        #[trigger] stay[i]).pos != (#[trigger] come[j]).pos by {
            assert(n.bots.contains(stay[i]));
            assert(n.new_bots.contains(come[j]));
            let a = choose|a: int| 0 <= a < n.bots.len() && n.bots[a] == stay[i];
            let b = choose|b: int| 0 <= b < n.new_bots.len() && n.new_bots[b] == come[j];
            assert(n.bots[a].pos != n.new_bots[b].pos);
        }
    }
    lemma_joined_in(stay, come, r);
    assert(out.bots == joined_in(stay, come));
    crate::partition::lemma_close_ids(n);
    assert forall|i: int| 0 <= i < out.bots.len() implies (#[trigger] out.bots[i]).pos.in_range(r)
        && out.marks.contains(out.bots[i].pos) by {
        assert(has_bot_at(out.bots, out.bots[i].pos));
    }
    assert(out.bots_inv());
    assert(out.reserved_inv());
    assert(out.core_inv());
}

/// A straight move that is not blocked ends on a voxel of the grid that is neither full nor
/// claimed.
pub proof fn lemma_walk_end(v: SystemView, start: Cord, d: CordDiff)
    requires
        d.linear(),
        d.spec_clen() <= 15,
        start.in_range(MAX_SIDE as int),
        !v.walk_blocked(start, d),
    ensures
        !v.blocked(start.offset(d)),
        start.can_offset(d),
{
    lemma_along(start, d, d.spec_clen());
    assert(!v.blocked(along(start, d, d.spec_clen())));
}

/// After a command that the state admits and that does not interfere has been carried out
/// and recorded, the state owes only the closing of the step, if every bot has had its turn.
#[verifier::rlimit(40)]
pub proof fn lemma_turn_inv(v: SystemView, cmd: Cmd)
    requires
        v.inv(),
        v.live(),
        v.admits(cmd),
        !v.interferes(cmd),
        v.records.len() < MAX_TRACE,
    ensures
        v.apply(cmd).moved_on(cmd).inv_open(),
{
    reveal(SystemView::core_inv);
    reveal(SystemView::bots_inv);
    reveal(SystemView::reserved_inv);
    let a = v.apply(cmd);
    let n = a.moved_on(cmd);
    let idx = v.bot_index;
    let bot = v.cur();
    let pos = bot.pos;
    let r = v.r;
    assert(pos.in_range(r) && v.marks.contains(pos));
    assert(!v.halted());
    crate::partition::lemma_turn_ids(v, cmd);
    match cmd {
        Cmd::Halt | Cmd::Wait | Cmd::Flip | Cmd::FusionS(_) => {
            assert(n.bots_inv());
            lemma_reserved_kept(v, n);
        },
        Cmd::SMove(lld) => {
            lemma_walk_end(v, pos, lld.0);
            let to = pos.offset(lld.0);
            lemma_along(pos, lld.0, 0);
            lemma_span_in_range(pos, to, r);
            lemma_moved(v, n, to);
        },
        Cmd::LMove(sld1, sld2) => {
            lemma_walk_end(v, pos, sld1.0);
            let corner = pos.offset(sld1.0);
            lemma_walk_end(v, corner, sld2.0);
            let to = corner.offset(sld2.0);
            lemma_along(pos, sld1.0, 0);
            lemma_along(corner, sld2.0, 0);
            lemma_span_in_range(pos, corner, r);
            lemma_span_in_range(corner, to, r);
            lemma_moved(v, n, to);
        },
        Cmd::Fission(nd, m) => {
            let at = pos.offset(nd.0);
            assert(n.new_bots[v.new_bots.len() as int].pos == at);
            assert forall|i: int| 0 <= i < n.bots.len() implies (#[trigger] n.bots[i]).pos
                == v.bots[i].pos by {}
            assert forall|i: int| 0 <= i < n.new_bots.len() implies (
            #[trigger] n.new_bots[i]).pos.in_range(r) && n.marks.contains(n.new_bots[i].pos) by {
                if i < v.new_bots.len() {
                    assert(n.new_bots[i] == v.new_bots[i]);
                }
            }
            assert forall|i: int, j: int| 0 <= i < j < n.new_bots.len() implies (
            #[trigger] n.new_bots[i]).pos != (#[trigger] n.new_bots[j]).pos by {
                assert(n.new_bots[i] == v.new_bots[i]);
                if j < v.new_bots.len() {
                    assert(n.new_bots[j] == v.new_bots[j]);
                }
            }
            assert forall|i: int, j: int|
                0 <= i < n.bots.len() && 0 <= j < n.new_bots.len() implies (
            #[trigger] n.bots[i]).pos != (#[trigger] n.new_bots[j]).pos by {
                assert(n.bots[i].pos == v.bots[i].pos);
                if j < v.new_bots.len() {
                    assert(n.new_bots[j] == v.new_bots[j]);
                }
            }
            assert forall|i: int, j: int| 0 <= i < j < n.bots.len() implies (
            #[trigger] n.bots[i]).pos != (#[trigger] n.bots[j]).pos by {
                assert(v.bots[i].pos != v.bots[j].pos);
            }
            assert forall|i: int, j: int| 0 <= i < j < n.bots.len() implies (
            #[trigger] n.bots[i]).bid < (#[trigger] n.bots[j]).bid by {
                assert(v.bots[i].bid < v.bots[j].bid);
            }
            assert(n.bots_inv());
            lemma_reserved_kept(v, n);
        },
        Cmd::Fill(nd) | Cmd::Void(nd) => {
            let c = pos.offset(nd.0);
            assert(c.in_range(r));
            lemma_without_kept(v.targets, c, r);
            assert forall|k: int| 0 <= k < n.targets.len() implies (
            #[trigger] n.targets[k]).cord.in_range(r) && n.full.contains(n.targets[k].cord)
                == !n.model_id.is_assemble() by {
                if n.targets != v.targets {
                    assert(n.targets == without(v.targets, c));
                    assert(v.targets.contains(n.targets[k]));
                    let j = choose|j: int| 0 <= j < v.targets.len() && v.targets[j] == n.targets[k];
                    assert(v.full.contains(v.targets[j].cord) == !v.model_id.is_assemble());
                } else {
                    assert(v.full.contains(v.targets[k].cord) == !v.model_id.is_assemble());
                }
            }
            assert(n.bots_inv());
            lemma_reserved_kept(v, n);
        },
        Cmd::FusionP(nd) => {
            let s_pos = pos.offset(nd.0);
            assert forall|i: int| 0 <= i < n.bots.len() implies (#[trigger] n.bots[i]).pos
                == v.bots[i].pos && n.bots[i].bid == v.bots[i].bid by {}
            assert forall|i: int, j: int| 0 <= i < j < n.bots.len() implies (
            #[trigger] n.bots[i]).pos != (#[trigger] n.bots[j]).pos by {
                assert(v.bots[i].pos != v.bots[j].pos);
            }
            assert forall|i: int, j: int| 0 <= i < j < n.bots.len() implies (
            #[trigger] n.bots[i]).bid < (#[trigger] n.bots[j]).bid by {
                assert(v.bots[i].bid < v.bots[j].bid);
            }
            assert forall|i: int, j: int|
                0 <= i < n.bots.len() && 0 <= j < n.new_bots.len() implies (
            #[trigger] n.bots[i]).pos != (#[trigger] n.new_bots[j]).pos by {
                assert(v.bots[i].pos != v.new_bots[j].pos);
            }
            assert(n.bots_inv());
            let k0 = choose|k0: int| 0 <= k0 < v.bots.len() && v.bots[k0].pos == s_pos;
            assert(v.bots[k0].pos.in_range(r));
            assert forall|k: int| 0 <= k < n.reserved.len() implies {
                let pair = #[trigger] n.reserved[k];
                &&& pair.0.in_range(r)
                &&& pair.1.in_range(r)
                &&& pair.1.diff_from(pair.0).near()
                &&& exists|i: int|
                    0 <= i < n.bot_index && i < n.bots.len() && n.bots[i].pos == pair.1
            } by {
                if k < v.reserved.len() {
                    let pair = v.reserved[k];
                    assert(n.reserved[k] == pair);
                    let i = choose|i: int|
                        0 <= i < v.bot_index && i < v.bots.len() && v.bots[i].pos == pair.1;
                    assert(n.bots[i].pos == pair.1);
                } else {
                    assert(n.bots[idx].pos == pos);
                }
            }
        },
    }
}

/// The agreed fusions stay in order when the bots that have had their turn stay where they
/// are.
proof fn lemma_reserved_kept(v: SystemView, n: SystemView)
    requires
        v.reserved_inv(),
        n.reserved == v.reserved,
        n.r == v.r,
        n.bot_index == v.bot_index + 1,
        n.bots.len() == v.bots.len(),
        forall|i: int| 0 <= i < v.bot_index && i < v.bots.len() ==> n.bots[i].pos == v.bots[i].pos,
    ensures
        n.reserved_inv(),
{
    reveal(SystemView::reserved_inv);
    assert forall|k: int| 0 <= k < n.reserved.len() implies {
        let pair = #[trigger] n.reserved[k];
        &&& pair.0.in_range(n.r)
        &&& pair.1.in_range(n.r)
        &&& pair.1.diff_from(pair.0).near()
        &&& exists|i: int| 0 <= i < n.bot_index && i < n.bots.len() && n.bots[i].pos == pair.1
    } by {
        let pair = v.reserved[k];
        let i = choose|i: int| 0 <= i < v.bot_index && i < v.bots.len() && v.bots[i].pos == pair.1;
        assert(n.bots[i].pos == pair.1);
    }
}

/// The bot whose turn it was has moved to the free voxel `to`, which is now claimed.
proof fn lemma_moved(v: SystemView, n: SystemView, to: Cord)
    requires
        v.inv(),
        v.live(),
        !v.blocked(to),
        n.r == v.r,
        n.bots == v.bots.update(v.bot_index, BotView { pos: to, ..v.cur() }),
        n.new_bots == v.new_bots,
        n.reserved == v.reserved,
        n.bot_index == v.bot_index + 1,
        n.marks.contains(to),
        forall|c: Cord| v.marks.contains(c) ==> n.marks.contains(c),
    ensures
        n.bots_inv(),
        n.reserved_inv(),
{
    reveal(SystemView::core_inv);
    reveal(SystemView::bots_inv);
    reveal(SystemView::reserved_inv);
    let idx = v.bot_index;
    assert forall|i: int| 0 <= i < n.bots.len() implies (#[trigger] n.bots[i]).pos.in_range(n.r)
        && n.marks.contains(n.bots[i].pos) by {
        if i != idx {
            assert(n.bots[i] == v.bots[i]);
        }
    }
    assert forall|i: int| 0 <= i < n.new_bots.len() implies (#[trigger] n.new_bots[i]).pos.in_range(
        n.r,
    ) && n.marks.contains(n.new_bots[i].pos) by {
        assert(v.marks.contains(v.new_bots[i].pos));
    }
    assert forall|i: int, j: int| 0 <= i < j < n.bots.len() implies (#[trigger] n.bots[i]).pos != (
    #[trigger] n.bots[j]).pos by {
        if i != idx && j != idx {
            assert(v.bots[i].pos != v.bots[j].pos);
        } else if i == idx {
            assert(v.marks.contains(v.bots[j].pos));
        } else {
            assert(v.marks.contains(v.bots[i].pos));
        }
    }
    assert forall|i: int, j: int| 0 <= i < n.bots.len() && 0 <= j < n.new_bots.len() implies (
    #[trigger] n.bots[i]).pos != (#[trigger] n.new_bots[j]).pos by {
        assert(v.marks.contains(v.new_bots[j].pos));
        if i != idx {
            assert(v.bots[i].pos != v.new_bots[j].pos);
        }
    }
    assert forall|i: int, j: int| 0 <= i < j < n.bots.len() implies (#[trigger] n.bots[i]).bid < (
    #[trigger] n.bots[j]).bid by {
        assert(v.bots[i].bid < v.bots[j].bid);
    }
    lemma_reserved_kept(v, n);
}

/// A queue without the entry for one coordinate is still in order.
pub proof fn lemma_without_kept(s: Seq<PriorityTarget>, c: Cord, r: int)
    requires
        targets_sorted(s),
        cords_distinct(s),
        forall|k: int| 0 <= k < s.len() ==> (#[trigger] s[k]).cord.in_range(r),
    ensures
        targets_sorted(without(s, c)),
        cords_distinct(without(s, c)),
        forall|k: int| 0 <= k < without(s, c).len() ==> (#[trigger] without(s, c)[k]).cord.in_range(r),
        forall|k: int|
            0 <= k < without(s, c).len() ==> s.contains(#[trigger] without(s, c)[k]) && without(
                s,
                c,
            )[k].cord != c,
        without(s, c).len() <= s.len(),
{
    if exists|i: int| 0 <= i < s.len() && s[i].cord == c {
        let i = choose|i: int| 0 <= i < s.len() && s[i].cord == c;
        lemma_without_at(s, c, i);
        let t = s.remove(i);
        assert forall|a: int, b: int| 0 <= a < b < t.len() implies crate::target::target_lt(
            t[a],
            t[b],
        ) && t[a].cord != t[b].cord by {
            let a0 = if a < i { a } else { a + 1 };
            let b0 = if b < i { b } else { b + 1 };
            assert(t[a] == s[a0] && t[b] == s[b0]);
        }
        assert forall|k: int| 0 <= k < t.len() implies (#[trigger] t[k]).cord.in_range(r)
            && s.contains(t[k]) && t[k].cord != c by {
            let k0 = if k < i { k } else { k + 1 };
            assert(t[k] == s[k0]);
            if k0 < i {
                assert(s[k0].cord != s[i].cord);
            } else {
                assert(s[i].cord != s[k0].cord);
            }
        }
    } else {
        lemma_without_none(s, c);
        assert forall|k: int| 0 <= k < s.len() implies s.contains(#[trigger] s[k]) && s[k].cord
            != c by {}
    }
}


/// What an invariant state says of the bot whose turn it is and of the budget.
pub proof fn lemma_inv_facts(v: SystemView)
    requires
        v.inv(),
    ensures
        1 <= v.r <= MAX_SIDE,
        v.records.len() <= MAX_TRACE,
        v.bots.len() <= 40,
        -MAX_COST * MAX_TRACE <= v.energy <= MAX_COST * MAX_TRACE,
        v.live() ==> 0 <= v.bot_index < v.bots.len() && v.cur().pos.in_range(v.r)
            && v.marks.contains(v.cur().pos),
        forall|i: int| 0 <= i < v.bots.len() ==> (#[trigger] v.bots[i]).pos.in_range(v.r),
        forall|c: Cord| v.full.contains(c) ==> c.in_range(v.r),
        forall|c: Cord| v.marks.contains(c) ==> c.in_range(v.r),
        targets_sorted(v.targets),
        cords_distinct(v.targets),
        forall|k: int| 0 <= k < v.targets.len() ==> (#[trigger] v.targets[k]).cord.in_range(v.r),
{
    lemma_base_facts(v);
}

/// What a state in order says of the bot whose turn it is and of the budget.
pub proof fn lemma_base_facts(v: SystemView)
    requires
        v.base_inv(),
    ensures
        1 <= v.r <= MAX_SIDE,
        v.records.len() <= MAX_TRACE,
        v.bots.len() <= 40,
        -MAX_COST * MAX_TRACE <= v.energy <= MAX_COST * MAX_TRACE,
        v.live() ==> 0 <= v.bot_index < v.bots.len() && v.cur().pos.in_range(v.r)
            && v.marks.contains(v.cur().pos),
        forall|i: int| 0 <= i < v.bots.len() ==> (#[trigger] v.bots[i]).pos.in_range(v.r),
        forall|c: Cord| v.full.contains(c) ==> c.in_range(v.r),
        forall|c: Cord| v.marks.contains(c) ==> c.in_range(v.r),
        targets_sorted(v.targets),
        cords_distinct(v.targets),
        forall|k: int| 0 <= k < v.targets.len() ==> (#[trigger] v.targets[k]).cord.in_range(v.r),
{
    reveal(SystemView::core_inv);
    reveal(SystemView::bots_inv);
    if v.bots.len() > 0 {
        lemma_bid_floor(v.bots, v.bots.len() - 1);
    }
}

/// In a list of bots with ascending identities, none below one, the identity of a bot is
/// larger than its place in the list.
pub proof fn lemma_bid_floor(bots: Seq<BotView>, i: int)
    requires
        0 <= i < bots.len(),
        forall|a: int, b: int|
            0 <= a < b < bots.len() ==> (#[trigger] bots[a]).bid < (#[trigger] bots[b]).bid,
        forall|a: int| 0 <= a < bots.len() ==> 1 <= (#[trigger] bots[a]).bid,
    ensures
        bots[i].bid >= i + 1,
    decreases i,
{
    if i > 0 {
        lemma_bid_floor(bots, i - 1);
        assert(bots[i - 1].bid < bots[i].bid);
    }
}

/// The voxels of the queue are void where the model is assembled and full where it is
/// taken apart.
pub proof fn lemma_queue_pending(v: SystemView, k: int)
    requires
        v.inv(),
        0 <= k < v.targets.len(),
    ensures
        v.targets[k].cord.in_range(v.r),
        v.full.contains(v.targets[k].cord) == !v.model_id.is_assemble(),
{
    reveal(SystemView::core_inv);
}

/// What a state that waits for the closing of its step says of the grid and of the budget.
pub proof fn lemma_open_facts(v: SystemView)
    requires
        v.inv_open(),
    ensures
        1 <= v.r <= MAX_SIDE,
        v.records.len() <= MAX_TRACE,
        v.bots.len() <= 40,
        -MAX_COST * MAX_TRACE + (MAX_COST - 30) <= v.energy <= MAX_COST * MAX_TRACE - (MAX_COST
            - 30),
        forall|i: int| 0 <= i < v.bots.len() ==> (#[trigger] v.bots[i]).pos.in_range(v.r),
{
    reveal(SystemView::core_inv);
    reveal(SystemView::bots_inv);
    if v.bots.len() > 0 {
        lemma_bid_floor(v.bots, v.bots.len() - 1);
    }
}


/// Where a bot is still to have its turn and the last command was not `Halt`, the state
/// after a recorded command is one in which the next command can be taken.
pub proof fn lemma_open_inv(n: SystemView)
    requires
        n.inv_open(),
        n.bot_index < n.bots.len(),
        !n.halted(),
    ensures
        n.inv(),
{
}

/// A state from which all bots are taken away after `Halt`, at the start of a step, stays
/// in order.
pub proof fn lemma_halted_inv(v: SystemView)
    requires
        v.inv_closed(),
        v.halted(),
        v.bot_index == 0,
        v.new_bots.len() == 0,
        v.reserved.len() == 0,
    ensures
        (SystemView { bots: Seq::empty(), ..v }).inv(),
{
    reveal(SystemView::core_inv);
    reveal(SystemView::bots_inv);
    reveal(SystemView::reserved_inv);
}

/// What a command that does not interfere leaves of the trace, the harmonics and the agreed
/// fusions.
pub proof fn lemma_step_facts(v: SystemView, cmd: Cmd)
    requires
        v.live(),
        0 <= v.bot_index < v.bots.len(),
        !v.interferes(cmd),
    ensures
        v.step(cmd).r == v.r,
        v.step(cmd).model_id == v.model_id,
        v.step(cmd).records == v.records.push(cmd),
        !(cmd is Flip) && !v.flip ==> v.step(cmd).harmonics == v.harmonics && !v.step(cmd).flip,
        cmd is Halt ==> v.step(cmd).bots.len() == 0,
        !(cmd is Fill) && !(cmd is Void) ==> v.step(cmd).targets == v.targets,
        v.step(cmd).targets.len() <= v.targets.len(),
        !(cmd is FusionP) && v.reserved.len() == 0 ==> v.step(cmd).reserved.len() == 0,
        !(cmd is FusionP) && v.removed.len() == 0 ==> v.step(cmd).removed.len() == 0,
        v.bot_index + 1 == v.bots.len() ==> v.step(cmd).bot_index == 0 && v.step(
            cmd,
        ).reserved.len() == 0 && v.step(cmd).removed.len() == 0 && v.step(cmd).new_bots.len() == 0,
        v.bot_index + 1 < v.bots.len() && !(cmd is Halt) ==> v.step(cmd).bot_index == v.bot_index
            + 1 && v.step(cmd).bots.len() == v.bots.len(),
{
    reveal(SystemView::step);
    match cmd {
        Cmd::Fill(nd) | Cmd::Void(nd) => {
            let c = v.cur().pos.offset(nd.0);
            v.targets.lemma_filter_len(|e: PriorityTarget| e.cord != c);
        },
        _ => {},
    }
}

/// The latest pair for a key is one of the pairs.
pub proof fn lemma_lookup(pairs: Seq<(Cord, Cord)>, key: Cord)
    requires
        lookup(pairs, key) is Some,
    ensures
        exists|k: int| 0 <= k < pairs.len() && #[trigger] pairs[k] == (key, lookup(pairs, key)->0),
    decreases pairs.len(),
{
    if pairs.last().0 == key {
        assert(pairs[pairs.len() - 1] == (key, lookup(pairs, key)->0));
    } else {
        lemma_lookup(pairs.drop_last(), key);
        let k = choose|k: int|
            0 <= k < pairs.drop_last().len() && #[trigger] pairs.drop_last()[k] == (
                key,
                lookup(pairs, key)->0,
            );
        assert(pairs[k] == pairs.drop_last()[k]);
    }
}

/// The bot for which a fusion is agreed stands near the bot that takes it over, and that
/// bot stands where the agreement says.
pub proof fn lemma_reserved_pair(v: SystemView, key: Cord)
    requires
        v.inv(),
        lookup(v.reserved, key) is Some,
    ensures
        key.in_range(v.r),
        lookup(v.reserved, key)->0.in_range(v.r),
        lookup(v.reserved, key)->0.diff_from(key).near(),
        has_bot_at(v.bots, lookup(v.reserved, key)->0),
{
    reveal(SystemView::core_inv);
    reveal(SystemView::reserved_inv);
    lemma_lookup(v.reserved, key);
    let p = lookup(v.reserved, key)->0;
    let k = choose|k: int| 0 <= k < v.reserved.len() && #[trigger] v.reserved[k] == (key, p);
    let pair = v.reserved[k];
    let i = choose|i: int| 0 <= i < v.bot_index && i < v.bots.len() && v.bots[i].pos == pair.1;
    assert(v.bots[i].pos == p);
}


/// The voxel that a `Fill` or a `Void` of the bot whose turn it is works on.
pub open spec fn work_target(v: SystemView, cmd: Cmd) -> Cord {
    match cmd {
        Cmd::Fill(nd) => v.cur().pos.offset(nd.0),
        Cmd::Void(nd) => v.cur().pos.offset(nd.0),
        _ => v.cur().pos,
    }
}

/// No bot stands on the voxel that a `Fill` or a `Void` works on: neither a bot of the
/// step nor one that was split off in it.
pub proof fn lemma_work_apart(v: SystemView, cmd: Cmd)
    requires
        v.inv(),
        v.live(),
        cmd is Fill || cmd is Void,
        !v.interferes(cmd),
    ensures
        forall|i: int| 0 <= i < v.bots.len() ==> (#[trigger] v.bots[i]).pos != work_target(v, cmd),
        forall|i: int|
            0 <= i < v.new_bots.len() ==> (#[trigger] v.new_bots[i]).pos != work_target(v, cmd),
        work_target(v, cmd).in_range(v.r),
{
    reveal(SystemView::core_inv);
    reveal(SystemView::bots_inv);
}

/// The state after the commands `cmds`, carried out one after the other.
pub open spec fn run_of(v: SystemView, cmds: Seq<Cmd>) -> SystemView
    decreases cmds.len(),
{
    if cmds.len() == 0 {
        v
    } else {
        run_of(v, cmds.drop_last()).step(cmds.last())
    }
}

/// Whether the state can take the command: a bot is left, the state admits the command,
/// the command does not interfere, and the trace has room for it.
pub open spec fn can_take(v: SystemView, cmd: Cmd) -> bool {
    v.live() && v.admits(cmd) && !v.interferes(cmd) && v.records.len() < MAX_TRACE
}

/// Whether each of the commands `cmds` can be taken by the state that the commands before
/// it leave.
pub open spec fn clean(v: SystemView, cmds: Seq<Cmd>) -> bool
    decreases cmds.len(),
{
    cmds.len() == 0 || (clean(v, cmds.drop_last()) && can_take(
        run_of(v, cmds.drop_last()),
        cmds.last(),
    ))
}

/// One more command that can be taken keeps a run clean.
pub proof fn lemma_run_push(v: SystemView, cmds: Seq<Cmd>, cmd: Cmd)
    ensures
        run_of(v, cmds.push(cmd)) == run_of(v, cmds).step(cmd),
        clean(v, cmds.push(cmd)) == (clean(v, cmds) && can_take(run_of(v, cmds), cmd)),
{
    assert(cmds.push(cmd).drop_last() =~= cmds);
}

/// A clean run keeps the state in order, records its commands, and leaves no bot after
/// `Halt` and only then.
pub proof fn lemma_clean_run(v: SystemView, cmds: Seq<Cmd>)
    requires
        v.inv(),
        clean(v, cmds),
    ensures
        run_of(v, cmds).inv(),
        run_of(v, cmds).records == v.records + cmds,
        run_of(v, cmds).r == v.r,
        forall|i: int| 0 <= i < cmds.len() - 1 ==> !(#[trigger] cmds[i] is Halt),
        cmds.len() > 0 && cmds.last() is Halt ==> !run_of(v, cmds).live(),
    decreases cmds.len(),
{
    if cmds.len() == 0 {
        assert(v.records + cmds =~= v.records);
    } else {
        let before = cmds.drop_last();
        let u = run_of(v, before);
        lemma_clean_run(v, before);
        lemma_step_inv(u, cmds.last());
        lemma_inv_facts(u);
        lemma_step_facts(u, cmds.last());
        assert(v.records + cmds =~= (v.records + before).push(cmds.last()));
        assert forall|i: int| 0 <= i < cmds.len() - 1 implies !(#[trigger] cmds[i] is Halt) by {
            if i < before.len() - 1 {
                assert(before[i] == cmds[i]);
            } else {
                assert(before.last() == cmds[i]);
            }
        }
    }
}

/// A command that can be taken leaves the state in order.
pub proof fn lemma_step_inv(v: SystemView, cmd: Cmd)
    requires
        v.inv(),
        can_take(v, cmd),
    ensures
        v.step(cmd).inv(),
{
    reveal(SystemView::step);
    lemma_inv_facts(v);
    lemma_turn_inv(v, cmd);
    let n = v.apply(cmd).moved_on(cmd);
    if n.bot_index == n.bots.len() {
        lemma_close_inv(n);
        if cmd is Halt {
            lemma_halted_inv(n.closed_step());
        }
    } else {
        lemma_open_inv(n);
    }
}


/// The filling of a free target of lowest priority where the model is assembled, and the
/// voiding of one where it is taken apart, do not interfere.
pub proof fn lemma_work_clear(v: SystemView, cmd: Cmd)
    requires
        v.inv(),
        v.live(),
        cmd is Fill || cmd is Void,
        cmd is Fill ==> v.model_id.is_assemble(),
        cmd is Void ==> !v.model_id.is_assemble(),
        top_cords(v.free_targets()).contains(work_target(v, cmd)),
    ensures
        !v.interferes(cmd),
        has_cord(v.targets, work_target(v, cmd)),
{
    let c = work_target(v, cmd);
    let free = v.free_targets();
    let unmarked = |e: PriorityTarget| !v.marks.contains(e.cord);
    let least = |e: PriorityTarget| is_least(free, e.priority);
    let top = free.filter(least);
    let cords = top.map_values(|e: PriorityTarget| e.cord);
    let i = choose|i: int| 0 <= i < cords.len() && cords[i] == c;
    let e = top[i];
    assert(e.cord == c);
    assert(top.contains(e));
    free.lemma_filter_contains_rev(least, e);
    let j = choose|j: int| 0 <= j < free.len() && free[j] == e;
    v.targets.lemma_filter_pred(unmarked, j);
    v.targets.lemma_filter_contains_rev(unmarked, e);
    let k = choose|k: int| 0 <= k < v.targets.len() && v.targets[k] == e;
    lemma_queue_pending(v, k);
}


/// What a command that does not interfere leaves of the matrix and of the queue: the
/// filling or the voiding of a voxel of the queue takes it out of the queue, and no other
/// command of a kind that the planner uses changes either.
pub proof fn lemma_step_work(v: SystemView, cmd: Cmd)
    requires
        v.inv(),
        v.live(),
        !v.interferes(cmd),
        cmd is Fill ==> v.model_id.is_assemble(),
        cmd is Void ==> !v.model_id.is_assemble(),
        cmd is Fill || cmd is Void ==> has_cord(v.targets, work_target(v, cmd)),
    ensures
        !(cmd is Fill) && !(cmd is Void) ==> v.step(cmd).full == v.full && v.step(cmd).targets
            == v.targets,
        cmd is Fill ==> v.step(cmd).full == v.full.insert(work_target(v, cmd)),
        cmd is Void ==> v.step(cmd).full == v.full.remove(work_target(v, cmd)),
        cmd is Fill || cmd is Void ==> forall|c: Cord|
            #[trigger] has_cord(v.step(cmd).targets, c) <==> (c != work_target(v, cmd) && has_cord(
                v.targets,
                c,
            )),
{
    reveal(SystemView::step);
    lemma_inv_facts(v);
    if cmd is Fill || cmd is Void {
        let t = work_target(v, cmd);
        let k = choose|k: int| 0 <= k < v.targets.len() && v.targets[k].cord == t;
        lemma_queue_pending(v, k);
        lemma_without_at(v.targets, t, k);
        let s = v.targets;
        let w = s.remove(k);
        assert(v.step(cmd).targets == w);
        assert forall|c: Cord| #[trigger] has_cord(w, c) <==> (c != t && has_cord(s, c)) by {
            if has_cord(w, c) {
                let j = choose|j: int| 0 <= j < w.len() && w[j].cord == c;
                let j0 = if j < k { j } else { j + 1 };
                assert(w[j] == s[j0]);
                if j0 < k {
                    assert(s[j0].cord != s[k].cord);
                } else {
                    assert(s[k].cord != s[j0].cord);
                }
            }
            if c != t && has_cord(s, c) {
                let j = choose|j: int| 0 <= j < s.len() && s[j].cord == c;
                if j < k {
                    assert(w[j].cord == c);
                } else {
                    assert(w[j - 1].cord == c);
                }
            }
        }
    }
}



/// What holds of a system between two commands while bots are left: it is the turn of one
/// of them; no two bots stand on one voxel, and each stands on a voxel of the grid that is
/// claimed; the bots are in ascending order of identity; the queue is in ascending order and
/// names no voxel twice; and where a fusion is agreed for a place, a bot that leaves at
/// the end of the step stands there.
pub proof fn lemma_state_invariants(v: SystemView)
    requires
        v.inv(),
        v.live(),
    ensures
        0 <= v.bot_index < v.bots.len(),
        forall|i: int, j: int|
            0 <= i < j < v.bots.len() ==> (#[trigger] v.bots[i]).pos != (#[trigger] v.bots[j]).pos
                && v.bots[i].bid < v.bots[j].bid,
        forall|i: int|
            0 <= i < v.bots.len() ==> (#[trigger] v.bots[i]).pos.in_range(v.r) && v.marks.contains(
                v.bots[i].pos,
            ),
        targets_sorted(v.targets),
        cords_distinct(v.targets),
        forall|k: int|
            0 <= k < v.reserved.len() ==> crate::state::leaves_from(
                v.bots,
                v.removed,
                (#[trigger] v.reserved[k]).0,
            ),
{
    reveal(SystemView::core_inv);
    reveal(SystemView::bots_inv);
    reveal(SystemView::ids_inv);
}

/// When a step has closed, nothing is claimed but the places of the bots.
pub proof fn lemma_closed_marks(n: SystemView)
    ensures
        n.closed_step().marks == places(n.closed_step().bots, n.r),
        n.closed_step().bot_index == 0,
        n.closed_step().reserved.len() == 0,
{
}

} // verus!
