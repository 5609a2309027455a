use crate::bot::{BotId, BotView, fused_seeds, initial_seeds, lemma_fused_seeds};
use vstd::multiset::Multiset;
use vstd::prelude::*;
use vstd::seq_lib::{lemma_multiset_commutative, to_multiset_build};

verus! {

/// How often the bot holds the identity `id`: as its own, and among its seeds.
pub open spec fn holds(b: BotView, id: BotId) -> nat {
    (if b.bid == id {
        1nat
    } else {
        0nat
    }) + b.seeds.to_multiset().count(id)
}

/// What a bot of the list adds to the count: nothing where it is to be removed.
pub open spec fn share(b: BotView, removed: Seq<BotId>, id: BotId) -> nat {
    if removed.contains(b.bid) {
        0
    } else {
        holds(b, id)
    }
}

/// How often the bots of the list that are not to be removed hold the identity `id`.
pub open spec fn held(bots: Seq<BotView>, removed: Seq<BotId>, id: BotId) -> nat
    decreases bots.len(),
{
    if bots.len() == 0 {
        0
    } else {
        held(bots.drop_last(), removed, id) + share(bots.last(), removed, id)
    }
}

/// How often an identity is to be held: once if it is one of the forty, else never.
pub open spec fn due(id: BotId) -> nat {
    if 1 <= id <= 40 {
        1
    } else {
        0
    }
}

/// A bot at the end of the list adds its share.
pub proof fn lemma_held_push(s: Seq<BotView>, b: BotView, removed: Seq<BotId>, id: BotId)
    ensures
        held(s.push(b), removed, id) == held(s, removed, id) + share(b, removed, id),
{
    assert(s.push(b).drop_last() =~= s);
}

/// The count is at least what one bot of the list adds.
pub proof fn lemma_held_member(s: Seq<BotView>, removed: Seq<BotId>, id: BotId, i: int)
    requires
        0 <= i < s.len(),
    ensures
        held(s, removed, id) >= share(s[i], removed, id),
    decreases s.len(),
{
    if i < s.len() - 1 {
        lemma_held_member(s.drop_last(), removed, id, i);
    }
}

/// The count is at least what two bots of the list add.
pub proof fn lemma_held_pair(s: Seq<BotView>, removed: Seq<BotId>, id: BotId, i: int, j: int)
    requires
        0 <= i < j < s.len(),
    ensures
        held(s, removed, id) >= share(s[i], removed, id) + share(s[j], removed, id),
    decreases s.len(),
{
    if j < s.len() - 1 {
        lemma_held_pair(s.drop_last(), removed, id, i, j);
    } else {
        lemma_held_member(s.drop_last(), removed, id, i);
    }
}

/// Where the count is not zero, a bot of the list adds to it.
pub proof fn lemma_held_witness(s: Seq<BotView>, removed: Seq<BotId>, id: BotId) -> (i: int)
    requires
        held(s, removed, id) > 0,
    ensures
        0 <= i < s.len(),
        share(s[i], removed, id) > 0,
    decreases s.len(),
{
    if share(s.last(), removed, id) > 0 {
        s.len() - 1
    } else {
        lemma_held_witness(s.drop_last(), removed, id)
    }
}

/// A bot put in the place of another changes the count by the difference of what they add.
pub proof fn lemma_held_update(s: Seq<BotView>, removed: Seq<BotId>, id: BotId, i: int, b: BotView)
    requires
        0 <= i < s.len(),
    ensures
        held(s.update(i, b), removed, id) + share(s[i], removed, id) == held(s, removed, id)
            + share(b, removed, id),
    decreases s.len(),
{
    let t = s.update(i, b);
    if i == s.len() - 1 {
        assert(t.drop_last() =~= s.drop_last());
    } else {
        lemma_held_update(s.drop_last(), removed, id, i, b);
        assert(t.drop_last() =~= s.drop_last().update(i, b));
    }
}

/// A bot that joins the list adds its share.
pub proof fn lemma_held_insert(s: Seq<BotView>, removed: Seq<BotId>, id: BotId, i: int, b: BotView)
    requires
        0 <= i <= s.len(),
    ensures
        held(s.insert(i, b), removed, id) == held(s, removed, id) + share(b, removed, id),
    decreases s.len(),
{
    let t = s.insert(i, b);
    if i == s.len() {
        assert(t =~= s.push(b));
        lemma_held_push(s, b, removed, id);
    } else {
        lemma_held_insert(s.drop_last(), removed, id, i, b);
        assert(t.drop_last() =~= s.drop_last().insert(i, b));
        assert(t.last() == s.last());
    }
}

/// Where no bot that counts has the identity `x`, removing `x` changes no count.
pub proof fn lemma_held_remove_none(s: Seq<BotView>, removed: Seq<BotId>, x: BotId, id: BotId)
    requires
        forall|j: int| 0 <= j < s.len() && !removed.contains(s[j].bid) ==> s[j].bid != x,
    ensures
        held(s, removed.push(x), id) == held(s, removed, id),
    decreases s.len(),
{
    if s.len() > 0 {
        let init = s.drop_last();
        assert forall|j: int| 0 <= j < init.len() && !removed.contains(init[j].bid) implies init[j].bid
            != x by {
            assert(init[j] == s[j]);
        }
        lemma_held_remove_none(init, removed, x, id);
        lemma_contains_push(removed, x, s.last().bid);
        assert(s[s.len() - 1] == s.last());
    }
}

/// Where one bot that counts has the identity `x` and no other bot has it, removing `x`
/// takes what that bot adds out of the count.
pub proof fn lemma_held_remove_one(
    s: Seq<BotView>,
    removed: Seq<BotId>,
    x: BotId,
    id: BotId,
    i: int,
)
    requires
        0 <= i < s.len(),
        s[i].bid == x,
        !removed.contains(x),
        forall|j: int| 0 <= j < s.len() && j != i ==> s[j].bid != x,
    ensures
        held(s, removed.push(x), id) + holds(s[i], id) == held(s, removed, id),
    decreases s.len(),
{
    let init = s.drop_last();
    lemma_contains_push(removed, x, s.last().bid);
    if i == s.len() - 1 {
        assert forall|j: int| 0 <= j < init.len() && !removed.contains(init[j].bid) implies init[j].bid
            != x by {
            assert(init[j] == s[j]);
        }
        lemma_held_remove_none(init, removed, x, id);
    } else {
        assert forall|j: int| 0 <= j < init.len() && j != i implies init[j].bid != x by {
            assert(init[j] == s[j]);
        }
        lemma_held_remove_one(init, removed, x, id, i);
        assert(s[s.len() - 1] == s.last());
    }
}

/// A list with one more identity holds that identity and what it held.
pub proof fn lemma_contains_push(s: Seq<BotId>, x: BotId, y: BotId)
    ensures
        s.push(x).contains(y) <==> (s.contains(y) || x == y),
{
    if s.contains(y) {
        let k = choose|k: int| 0 <= k < s.len() && s[k] == y;
        assert(s.push(x)[k] == y);
    }
    if x == y {
        assert(s.push(x)[s.len() as int] == y);
    }
    if s.push(x).contains(y) {
        let k = choose|k: int| 0 <= k < s.push(x).len() && s.push(x)[k] == y;
        if k < s.len() {
            assert(s[k] == y);
        }
    }
}

/// The bots that are not to be removed count as all the bots do.
pub proof fn lemma_held_survivors(s: Seq<BotView>, removed: Seq<BotId>, id: BotId)
    ensures
        held(s.filter(|b: BotView| !removed.contains(b.bid)), Seq::empty(), id) == held(
            s,
            removed,
            id,
        ),
    decreases s.len(),
{
    let keep = |b: BotView| !removed.contains(b.bid);
    if s.len() == 0 {
        s.lemma_filter_len(keep);
    } else {
        let init = s.drop_last();
        assert(s =~= init.push(s.last()));
        init.lemma_filter_push(s.last(), keep);
        lemma_held_survivors(init, removed, id);
        if keep(s.last()) {
            lemma_held_push(init.filter(keep), s.last(), Seq::empty(), id);
            assert(!Seq::<BotId>::empty().contains(s.last().bid));
        }
    }
}

/// What a bot and the bot that it splits off hold together is what the bot held.
pub proof fn lemma_holds_fission(b: BotView, m: int, id: BotId)
    requires
        0 <= m < b.seeds.len(),
    ensures
        holds(b, id) == holds(BotView { seeds: b.seeds.subrange(m + 1, b.seeds.len() as int), ..b }, id)
            + holds(
            BotView { bid: b.seeds[0], pos: b.pos, seeds: b.seeds.subrange(1, m + 1) },
            id,
        ),
{
    let head = seq![b.seeds[0]];
    let mid = b.seeds.subrange(1, m + 1);
    let rest = b.seeds.subrange(m + 1, b.seeds.len() as int);
    assert(b.seeds =~= (head + mid) + rest);
    lemma_multiset_commutative(head + mid, rest);
    lemma_multiset_commutative(head, mid);
    assert(head.to_multiset().count(id) == if b.seeds[0] == id { 1nat } else { 0nat }) by {
        to_multiset_build(Seq::<BotId>::empty(), b.seeds[0]);
        assert(Seq::<BotId>::empty().push(b.seeds[0]) =~= head);
        Seq::<BotId>::empty().to_multiset_ensures();
        assert(Seq::<BotId>::empty().to_multiset() =~= Multiset::empty());
    }
}

/// What a bot holds that has taken another over is what the two held.
pub proof fn lemma_holds_fusion(p: BotView, s: BotView, id: BotId)
    ensures
        holds(BotView { seeds: fused_seeds(p.seeds, s.bid, s.seeds), ..p }, id) == holds(p, id)
            + holds(s, id),
{
    lemma_fused_seeds(p.seeds, s.bid, s.seeds);
}

/// The first bot holds each of the forty identities once, and no other.
pub proof fn lemma_holds_initial(b: BotView, id: BotId)
    requires
        b.bid == 1,
        b.seeds == initial_seeds(),
    ensures
        holds(b, id) == due(id),
{
    lemma_run_count(39, id);
    assert(initial_seeds() =~= run_from_two(39));
}

/// The identities `2, 3, ..`, `n` of them.
pub open spec fn run_from_two(n: nat) -> Seq<BotId> {
    Seq::new(n, |i: int| (i + 2) as u64)
}

proof fn lemma_run_count(n: nat, id: BotId)
    requires
        n <= 1000,
    ensures
        run_from_two(n).to_multiset().count(id) == if 2 <= id < n + 2 {
            1nat
        } else {
            0nat
        },
    decreases n,
{
    if n == 0 {
        run_from_two(0).to_multiset_ensures();
        assert(run_from_two(0).to_multiset() =~= Multiset::empty());
    } else {
        lemma_run_count((n - 1) as nat, id);
        let before = run_from_two((n - 1) as nat);
        assert(run_from_two(n) =~= before.push((n + 1) as u64));
        to_multiset_build(before, (n + 1) as u64);
    }
}

} // verus!
