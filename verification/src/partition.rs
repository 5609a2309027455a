use crate::bot::{BotId, BotView, Cmd, initial_seeds};
use crate::geometry::Cord;
use crate::ids::{
    due, held, holds, lemma_contains_push, lemma_held_insert, lemma_held_member, lemma_held_pair,
    lemma_held_push, lemma_held_remove_none, lemma_held_remove_one, lemma_held_survivors,
    lemma_held_update, lemma_held_witness, lemma_holds_fission, lemma_holds_fusion,
    lemma_holds_initial, share,
};
use crate::state::{first_at, joined_in, leaves_from, lookup, place_of, survivors, SystemView};
use vstd::prelude::*;

verus! {

/// The first bot alone holds each of the forty identities once.
pub proof fn lemma_first_ids(v: SystemView)
    requires
        v.bots.len() == 1,
        v.bots[0].bid == 1,
        v.bots[0].seeds == initial_seeds(),
        v.new_bots.len() == 0,
        v.removed.len() == 0,
        v.reserved.len() == 0,
    ensures
        v.ids_inv(),
{
    reveal(SystemView::ids_inv);
    assert forall|id: BotId| #[trigger] v.id_count(id) == due(id) by {
        lemma_holds_initial(v.bots[0], id);
        assert(v.bots.drop_last() =~= Seq::<BotView>::empty());
        assert(v.bots.last() == v.bots[0]);
        reveal_with_fuel(held, 2);
    }
}

/// Newcomers that join a list add what they hold.
pub proof fn lemma_held_joined(s: Seq<BotView>, newcomers: Seq<BotView>, id: BotId)
    ensures
        held(joined_in(s, newcomers), Seq::empty(), id) == held(s, Seq::empty(), id) + held(
            newcomers,
            Seq::empty(),
            id,
        ),
    decreases newcomers.len(),
{
    if newcomers.len() > 0 {
        let head = joined_in(s, newcomers.drop_last());
        lemma_held_joined(s, newcomers.drop_last(), id);
        lemma_place_in(head, newcomers.last().bid);
        lemma_held_insert(
            head,
            Seq::empty(),
            id,
            place_of(head, newcomers.last().bid),
            newcomers.last(),
        );
    }
}

proof fn lemma_place_in(s: Seq<BotView>, bid: BotId)
    ensures
        0 <= place_of(s, bid) <= s.len(),
    decreases s.len(),
{
    if s.len() > 0 {
        lemma_place_in(s.drop_last(), bid);
    }
}

/// Closing a step keeps each identity held once, and leaves no two bots with one identity.
pub proof fn lemma_close_ids(n: SystemView)
    requires
        n.ids_inv(),
    ensures
        n.closed_step().ids_inv(),
        forall|i: int, j: int|
            0 <= i < j < n.closed_step().bots.len() ==> n.closed_step().bots[i].bid
                != n.closed_step().bots[j].bid,
        forall|i: int|
            0 <= i < n.closed_step().bots.len() ==> 1 <= (#[trigger] n.closed_step().bots[i]).bid
                <= 40,
{
    reveal(SystemView::ids_inv);
    let out = n.closed_step();
    let stay = survivors(n.bots, n.removed);
    let come = survivors(n.new_bots, n.removed);
    let none = Seq::<BotId>::empty();
    assert forall|id: BotId| #[trigger] out.id_count(id) == due(id) by {
        lemma_held_survivors(n.bots, n.removed, id);
        lemma_held_survivors(n.new_bots, n.removed, id);
        lemma_held_joined(stay, come, id);
        assert(n.id_count(id) == due(id));
    }
    assert forall|i: int| 0 <= i < out.bots.len() implies 1 <= (#[trigger] out.bots[i]).bid
        <= 40 by {
        let id = out.bots[i].bid;
        lemma_held_member(out.bots, none, id, i);
        assert(out.id_count(id) == due(id));
        assert(!none.contains(id));
    }
    assert forall|i: int, j: int| 0 <= i < j < out.bots.len() implies out.bots[i].bid
        != out.bots[j].bid by {
        let id = out.bots[i].bid;
        if out.bots[j].bid == id {
            lemma_held_pair(out.bots, none, id, i, j);
            assert(out.id_count(id) == due(id));
            assert(!none.contains(id));
        }
    }
}

/// A bot for which no fusion is agreed is not to be removed.
proof fn lemma_not_reserved(v: SystemView, i: int)
    requires
        v.ids_inv(),
        0 <= i < v.bots.len(),
        lookup(v.reserved, v.bots[i].pos) is None,
    ensures
        !v.removed.contains(v.bots[i].bid),
{
    reveal(SystemView::ids_inv);
}

/// A command that the state admits keeps each identity held once.
pub proof fn lemma_turn_ids(v: SystemView, cmd: Cmd)
    requires
        v.base_inv(),
        v.ids_inv(),
        v.live(),
        v.admits(cmd),
        !v.interferes(cmd),
    ensures
        v.apply(cmd).moved_on(cmd).ids_inv(),
{
    let n = v.apply(cmd).moved_on(cmd);
    let idx = v.bot_index;
    crate::laws::lemma_base_facts(v);
    match cmd {
        Cmd::Halt | Cmd::Wait | Cmd::Flip | Cmd::FusionS(_) | Cmd::Fill(_) | Cmd::Void(_) => {
            reveal(SystemView::ids_inv);
            assert forall|id: BotId| #[trigger] n.id_count(id) == due(id) by {
                assert(v.id_count(id) == due(id));
            }
        },
        Cmd::SMove(_) | Cmd::LMove(_, _) => {
            lemma_not_reserved(v, idx);
            reveal(SystemView::ids_inv);
            assert forall|id: BotId| #[trigger] n.id_count(id) == due(id) by {
                assert(v.id_count(id) == due(id));
                lemma_held_update(v.bots, v.removed, id, idx, n.bots[idx]);
            }
            assert forall|i: int|
                0 <= i < n.bots.len() && n.removed.contains(
                    (#[trigger] n.bots[i]).bid,
                ) implies lookup(n.reserved, n.bots[i].pos) is Some by {
                assert(n.bots[i].bid == v.bots[i].bid);
                if i != idx {
                    assert(n.bots[i] == v.bots[i]);
                }
            }
            assert forall|i: int, k: int|
                n.bot_index <= i < n.bots.len() && !n.removed.contains(n.bots[i].bid) && 0 <= k
                    < n.bots[i].seeds.len() implies !n.removed.contains(
                #[trigger] n.bots[i].seeds[k],
            ) by {
                assert(n.bots[i] == v.bots[i]);
                assert(!v.removed.contains(v.bots[i].seeds[k]));
            }
            assert forall|k: int| 0 <= k < n.reserved.len() implies leaves_from(
                n.bots,
                n.removed,
                (#[trigger] n.reserved[k]).0,
            ) by {
                lemma_leaves_kept(v.bots, n.bots, v.removed, v.reserved[k].0, idx);
            }
        },
        Cmd::Fission(nd, m) => {
            lemma_not_reserved(v, idx);
            reveal(SystemView::ids_inv);
            let bot = v.cur();
            let child = n.new_bots[v.new_bots.len() as int];
            assert(!v.removed.contains(bot.seeds[0]));
            assert forall|id: BotId| #[trigger] n.id_count(id) == due(id) by {
                assert(v.id_count(id) == due(id));
                lemma_held_update(v.bots, v.removed, id, idx, n.bots[idx]);
                lemma_held_push(v.new_bots, child, v.removed, id);
                lemma_holds_fission(bot, m as int, id);
            }
            assert forall|i: int|
                0 <= i < n.bots.len() && n.removed.contains(
                    (#[trigger] n.bots[i]).bid,
                ) implies lookup(n.reserved, n.bots[i].pos) is Some by {
                assert(n.bots[i].bid == v.bots[i].bid && n.bots[i].pos == v.bots[i].pos);
            }
            assert forall|i: int, k: int|
                n.bot_index <= i < n.bots.len() && !n.removed.contains(n.bots[i].bid) && 0 <= k
                    < n.bots[i].seeds.len() implies !n.removed.contains(
                #[trigger] n.bots[i].seeds[k],
            ) by {
                assert(n.bots[i] == v.bots[i]);
                assert(!v.removed.contains(v.bots[i].seeds[k]));
            }
            assert forall|k: int| 0 <= k < n.reserved.len() implies leaves_from(
                n.bots,
                n.removed,
                (#[trigger] n.reserved[k]).0,
            ) by {
                lemma_leaves_kept(v.bots, n.bots, v.removed, v.reserved[k].0, idx);
            }
        },
        Cmd::FusionP(nd) => {
            lemma_fusion_ids(v, cmd);
        },
    }
}

/// A fusion keeps each identity held once.
proof fn lemma_fusion_ids(v: SystemView, cmd: Cmd)
    requires
        v.base_inv(),
        v.ids_inv(),
        v.live(),
        v.admits(cmd),
        cmd is FusionP,
    ensures
        v.apply(cmd).moved_on(cmd).ids_inv(),
{
    let n = v.apply(cmd).moved_on(cmd);
    let idx = v.bot_index;
    let nd = cmd->FusionP_0;
    crate::laws::lemma_base_facts(v);
    reveal(SystemView::core_inv);
    reveal(SystemView::bots_inv);
    let p = v.cur();
    let s_pos = p.pos.offset(nd.0);
    let at = first_at(v.bots, s_pos);
    assert(0 <= at < v.bots.len() && v.bots[at].pos == s_pos) by {
        lemma_first_exists(v.bots, s_pos, v.bots.len() as int);
    }
    let s = v.bots[at];
    let x = s.bid;
    assert(at != idx);
    lemma_not_reserved(v, idx);
    lemma_not_reserved(v, at);
    reveal(SystemView::ids_inv);
    assert(n.removed == v.removed.push(x));
    assert(n.bots == v.bots.update(idx, n.bots[idx]));
    assert(n.bots[at] == s);
    assert forall|j: int| 0 <= j < n.bots.len() && j != at implies n.bots[j].bid != x by {
        assert(n.bots[j].bid == v.bots[j].bid);
        if j < at {
            assert(v.bots[j].bid < v.bots[at].bid);
        } else {
            assert(v.bots[at].bid < v.bots[j].bid);
        }
    }
    // No bot that was split off has the identity of the bot that is taken over.
    assert(holds(s, x) >= 1);
    lemma_held_member(v.bots, v.removed, x, at);
    assert(v.id_count(x) == due(x));
    assert(held(v.new_bots, v.removed, x) == 0);
    assert forall|j: int| 0 <= j < v.new_bots.len() && !v.removed.contains(
        v.new_bots[j].bid,
    ) implies v.new_bots[j].bid != x by {
        lemma_held_member(v.new_bots, v.removed, x, j);
    }
    assert forall|id: BotId| #[trigger] n.id_count(id) == due(id) by {
        assert(v.id_count(id) == due(id));
        lemma_held_update(v.bots, v.removed, id, idx, n.bots[idx]);
        lemma_holds_fusion(p, s, id);
        lemma_held_remove_one(n.bots, v.removed, x, id, at);
        lemma_held_remove_none(v.new_bots, v.removed, x, id);
    }
    assert forall|i: int|
        0 <= i < n.bots.len() && n.removed.contains((#[trigger] n.bots[i]).bid) implies lookup(
        n.reserved,
        n.bots[i].pos,
    ) is Some by {
        assert(n.bots[i].bid == v.bots[i].bid && n.bots[i].pos == v.bots[i].pos);
        lemma_contains_push(v.removed, x, n.bots[i].bid);
        assert(n.reserved.drop_last() =~= v.reserved);
        if n.bots[i].bid == x {
            assert(i == at);
        }
    }
    assert forall|i: int, k: int|
        n.bot_index <= i < n.bots.len() && !n.removed.contains(n.bots[i].bid) && 0 <= k
            < n.bots[i].seeds.len() implies !n.removed.contains(#[trigger] n.bots[i].seeds[k]) by {
        assert(n.bots[i] == v.bots[i]);
        let seed = v.bots[i].seeds[k];
        lemma_contains_push(v.removed, x, n.bots[i].bid);
        lemma_contains_push(v.removed, x, seed);
        assert(!v.removed.contains(seed));
        if seed == x {
            assert(i != at);
            v.bots[i].seeds.to_multiset_ensures();
            assert(v.bots[i].seeds.contains(seed));
            assert(holds(v.bots[i], x) >= 1);
            if i < at {
                lemma_held_pair(v.bots, v.removed, x, i, at);
            } else {
                lemma_held_pair(v.bots, v.removed, x, at, i);
            }
        }
    }
    assert forall|k: int| 0 <= k < n.reserved.len() implies leaves_from(
        n.bots,
        n.removed,
        (#[trigger] n.reserved[k]).0,
    ) by {
        if k < v.reserved.len() {
            assert(n.reserved[k] == v.reserved[k]);
            let j = choose|j: int|
                0 <= j < v.bots.len() && v.bots[j].pos == v.reserved[k].0 && v.removed.contains(
                    v.bots[j].bid,
                );
            lemma_contains_push(v.removed, x, v.bots[j].bid);
            assert(n.bots[j].pos == v.bots[j].pos && n.bots[j].bid == v.bots[j].bid);
        } else {
            lemma_contains_push(v.removed, x, x);
            assert(n.bots[at].pos == s_pos && n.removed.contains(n.bots[at].bid));
        }
    }
}

/// A bot that is to be removed and stands at `pos` still does when another bot, one that is
/// not to be removed, has moved or has changed its seeds.
proof fn lemma_leaves_kept(
    before: Seq<BotView>,
    after: Seq<BotView>,
    removed: Seq<BotId>,
    pos: Cord,
    idx: int,
)
    requires
        leaves_from(before, removed, pos),
        0 <= idx < before.len(),
        after.len() == before.len(),
        !removed.contains(before[idx].bid),
        forall|j: int| 0 <= j < before.len() && j != idx ==> after[j] == before[j],
    ensures
        leaves_from(after, removed, pos),
{
    let j = choose|j: int|
        0 <= j < before.len() && before[j].pos == pos && removed.contains(before[j].bid);
    assert(after[j] == before[j]);
}

/// Where a bot stands at `pos`, the first such bot does.
pub proof fn lemma_first_exists(bots: Seq<BotView>, pos: Cord, upto: int)
    requires
        0 <= upto <= bots.len(),
        exists|i: int| 0 <= i < upto && bots[i].pos == pos,
    ensures
        exists|i: int|
            0 <= i < bots.len() && bots[i].pos == pos && forall|j: int|
                0 <= j < i ==> bots[j].pos != pos,
    decreases upto,
{
    if exists|i: int| 0 <= i < upto - 1 && bots[i].pos == pos {
        lemma_first_exists(bots, pos, upto - 1);
    } else {
        let i = upto - 1;
        assert(bots[i].pos == pos && forall|j: int| 0 <= j < i ==> bots[j].pos != pos);
    }
}


/// Whether the bot holds the identity `id`, as its own or as a seed.
pub open spec fn has_id(b: BotView, id: BotId) -> bool {
    b.bid == id || b.seeds.contains(id)
}

/// Whether a bot of the list holds the identity `id`.
pub open spec fn held_by_one(bots: Seq<BotView>, id: BotId) -> bool {
    exists|i: int| 0 <= i < bots.len() && #[trigger] has_id(bots[i], id)
}

/// Between two time steps, while the run has not halted, the identities of the bots and
/// their seeds are the forty identities `1` to `40`: each bot's own identity and each of its
/// seeds is one of the forty, no identity is held twice, by one bot or by two, and each of
/// the forty is held.
pub proof fn lemma_ids_partition(v: SystemView)
    requires
        v.inv(),
        !v.halted(),
        v.removed.len() == 0,
        v.new_bots.len() == 0,
    ensures
        v.bots.len() > 0,
        forall|i: int, id: BotId|
            0 <= i < v.bots.len() && #[trigger] has_id(v.bots[i], id) ==> 1 <= id <= 40,
        forall|i: int, j: int, id: BotId|
            0 <= i < j < v.bots.len() ==> !(#[trigger] has_id(v.bots[i], id) && #[trigger] has_id(
                v.bots[j],
                id,
            )),
        forall|i: int| 0 <= i < v.bots.len() ==> (#[trigger] v.bots[i]).seeds.no_duplicates()
            && !v.bots[i].seeds.contains(v.bots[i].bid),
        forall|id: BotId| 1 <= id <= 40 ==> #[trigger] held_by_one(v.bots, id),
{
    reveal(SystemView::ids_inv);
    let none = v.removed;
    assert(none =~= Seq::<BotId>::empty());
    assert forall|id: BotId| held(v.bots, none, id) == due(id) by {
        assert(v.id_count(id) == due(id));
        assert(v.new_bots =~= Seq::<BotView>::empty());
    }
    assert forall|i: int, id: BotId| 0 <= i < v.bots.len() && #[trigger] has_id(
        v.bots[i],
        id,
    ) implies holds(v.bots[i], id) >= 1 && share(v.bots[i], none, id) >= 1 by {
        v.bots[i].seeds.to_multiset_ensures();
    }
    assert forall|i: int, id: BotId| 0 <= i < v.bots.len() && #[trigger] has_id(
        v.bots[i],
        id,
    ) implies 1 <= id <= 40 by {
        v.bots[i].seeds.to_multiset_ensures();
        assert(share(v.bots[i], none, id) >= 1);
        lemma_held_member(v.bots, none, id, i);
        assert(held(v.bots, none, id) == due(id));
    }
    assert forall|i: int, j: int, id: BotId| 0 <= i < j < v.bots.len() implies !(#[trigger] has_id(
        v.bots[i],
        id,
    ) && #[trigger] has_id(v.bots[j], id)) by {
        if has_id(v.bots[i], id) && has_id(v.bots[j], id) {
            v.bots[i].seeds.to_multiset_ensures();
            v.bots[j].seeds.to_multiset_ensures();
            assert(share(v.bots[i], none, id) >= 1);
            assert(share(v.bots[j], none, id) >= 1);
            lemma_held_pair(v.bots, none, id, i, j);
            assert(held(v.bots, none, id) == due(id));
        }
    }
    assert forall|i: int| 0 <= i < v.bots.len() implies (#[trigger] v.bots[i]).seeds.no_duplicates()
        && !v.bots[i].seeds.contains(v.bots[i].bid) by {
        let b = v.bots[i];
        b.seeds.to_multiset_ensures();
        assert forall|x: BotId| b.seeds.to_multiset().contains(x) implies b.seeds.to_multiset().count(
            x,
        ) == 1 by {
            assert(b.seeds.to_multiset().count(x) > 0);
            assert(share(b, none, x) == holds(b, x));
            lemma_held_member(v.bots, none, x, i);
            assert(held(v.bots, none, x) == due(x));
        }
        b.seeds.lemma_multiset_has_no_duplicates_conv();
        if b.seeds.contains(b.bid) {
            assert(b.seeds.to_multiset().count(b.bid) > 0);
            assert(share(b, none, b.bid) == holds(b, b.bid));
            lemma_held_member(v.bots, none, b.bid, i);
            assert(held(v.bots, none, b.bid) == due(b.bid));
        }
    }
    assert forall|id: BotId| 1 <= id <= 40 implies #[trigger] held_by_one(v.bots, id) by {
        assert(held(v.bots, none, id) == due(id));
        let i = lemma_held_witness(v.bots, none, id);
        v.bots[i].seeds.to_multiset_ensures();
        assert(has_id(v.bots[i], id));
    }
    assert(held(v.bots, none, 1) == due(1));
    let i = lemma_held_witness(v.bots, none, 1);
}

} // verus!
