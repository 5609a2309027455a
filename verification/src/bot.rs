use crate::geometry::{Cord, CordDiff, LongLinear, Near, ShortLinear};
use vstd::multiset::Multiset;
use vstd::prelude::*;
use vstd::seq_lib::{to_multiset_build, to_multiset_insert};

verus! {

/// The identity of a bot: one of the forty from 1 to 40.
pub type BotId = u64;

/// One command of one bot in one time step.
#[derive(Clone, Copy, Debug)]
pub enum Cmd {
    Halt,
    Wait,
    Flip,
    SMove(LongLinear),
    LMove(ShortLinear, ShortLinear),
    Fission(Near, usize),
    Fill(Near),
    Void(Near),
    FusionP(Near),
    FusionS(Near),
}

/// The axis (`a`: 1 for x, 2 for y, 3 for z) and the biased length (`i`) of a linear
/// displacement, as they are packed into a command.
pub struct CordDiffBits {
    pub a: u8,
    pub i: u8,
}

/// The axis code of a displacement: that of its first component that is not zero.
pub open spec fn axis_code(d: CordDiff) -> u8 {
    if d.dx != 0 {
        1
    } else if d.dy != 0 {
        2
    } else {
        3
    }
}

/// The component of a displacement along the axis that `axis_code` names.
pub open spec fn axis_part(d: CordDiff) -> int {
    if d.dx != 0 {
        d.dx as int
    } else if d.dy != 0 {
        d.dy as int
    } else {
        d.dz as int
    }
}

impl ShortLinear {
    /// The axis and the length biased by five.
    pub open spec fn bits(self) -> CordDiffBits {
        CordDiffBits { a: axis_code(self.0), i: (axis_part(self.0) + 5) as u8 }
    }

    /// Axis and length biased by five; the low eight bits where the length is out of range.
    pub fn encode(&self) -> (b: CordDiffBits)
        ensures
            b == self.bits(),
    {
        let cord = &self.0;
        if cord.dx != 0 {
            CordDiffBits { a: 1, i: #[verifier::truncate] ((cord.dx as i64 + 5) as u8) }
        } else if cord.dy != 0 {
            CordDiffBits { a: 2, i: #[verifier::truncate] ((cord.dy as i64 + 5) as u8) }
        } else {
            CordDiffBits { a: 3, i: #[verifier::truncate] ((cord.dz as i64 + 5) as u8) }
        }
    }
}

impl LongLinear {
    /// The axis and the length biased by fifteen.
    pub open spec fn bits(self) -> CordDiffBits {
        CordDiffBits { a: axis_code(self.0), i: (axis_part(self.0) + 15) as u8 }
    }

    /// Axis and length biased by fifteen; the low eight bits where the length is out of range.
    pub fn encode(&self) -> (b: CordDiffBits)
        ensures
            b == self.bits(),
    {
        let cord = &self.0;
        if cord.dx != 0 {
            CordDiffBits { a: 1, i: #[verifier::truncate] ((cord.dx as i64 + 15) as u8) }
        } else if cord.dy != 0 {
            CordDiffBits { a: 2, i: #[verifier::truncate] ((cord.dy as i64 + 15) as u8) }
        } else {
            CordDiffBits { a: 3, i: #[verifier::truncate] ((cord.dz as i64 + 15) as u8) }
        }
    }
}

impl Near {
    /// The code `(dx + 1) * 9 + (dy + 1) * 3 + (dz + 1)`.
    pub open spec fn code(self) -> u8 {
        ((self.0.dx + 1) * 9 + (self.0.dy + 1) * 3 + (self.0.dz + 1)) as u8
    }

    /// The five-bit code `(dx + 1) * 9 + (dy + 1) * 3 + (dz + 1)`.
    pub fn encode(&self) -> (n: u8)
        ensures
            n == self.code(),
    {
        let c = &self.0;
        #[verifier::truncate]
        (((c.dx as i64 + 1) * 9 + (c.dy as i64 + 1) * 3 + (c.dz as i64 + 1)) as u8)
    }
}

/// The bytes of a command in a trace.
pub open spec fn encoding(cmd: Cmd) -> Seq<u8> {
    match cmd {
        Cmd::Halt => seq![0b1111_1111u8],
        Cmd::Wait => seq![0b1111_1110u8],
        Cmd::Flip => seq![0b1111_1101u8],
        Cmd::SMove(lld) => seq![(lld.bits().a << 4) | 0b0000_0100u8, lld.bits().i],
        Cmd::LMove(sld1, sld2) => seq![
            (sld2.bits().a << 6) | (sld1.bits().a << 4) | 0b0000_1100u8,
            (sld2.bits().i << 4) | sld1.bits().i,
        ],
        Cmd::Fission(nd, m) => seq![(nd.code() << 3) | 0b0000_0101u8, m as u8],
        Cmd::FusionP(nd) => seq![(nd.code() << 3) | 0b0000_0111u8],
        Cmd::FusionS(nd) => seq![(nd.code() << 3) | 0b0000_0110u8],
        Cmd::Fill(nd) => seq![(nd.code() << 3) | 0b0000_0011u8],
        Cmd::Void(nd) => seq![(nd.code() << 3) | 0b0000_0010u8],
    }
}

impl Cmd {
    /// Every displacement of the command is of the class that its place asks for.
    pub open spec fn well_formed(self) -> bool {
        match self {
            Cmd::Halt | Cmd::Wait | Cmd::Flip => true,
            Cmd::SMove(lld) => lld.0.long_linear(),
            Cmd::LMove(sld1, sld2) => sld1.0.short_linear() && sld2.0.short_linear(),
            Cmd::Fission(nd, _) => nd.0.near(),
            Cmd::Fill(nd) | Cmd::Void(nd) | Cmd::FusionP(nd) | Cmd::FusionS(nd) => nd.0.near(),
        }
    }

    /// The bytes of the command in a trace.
    pub fn encode(&self) -> (bytes: Vec<u8>)
        ensures
            bytes@ == encoding(*self),
    {
        let bytes = match *self {
            Cmd::Halt => vec![0b1111_1111u8],
            Cmd::Wait => vec![0b1111_1110u8],
            Cmd::Flip => vec![0b1111_1101u8],
            Cmd::SMove(lld) => {
                let b = lld.encode();
                vec![(b.a << 4) | 0b0000_0100u8, b.i]
            },
            Cmd::LMove(sld1, sld2) => {
                let b1 = sld1.encode();
                let b2 = sld2.encode();
                vec![(b2.a << 6) | (b1.a << 4) | 0b0000_1100u8, (b2.i << 4) | b1.i]
            },
            Cmd::Fission(nd, m) => {
                let n = nd.encode();
                vec![(n << 3) | 0b0000_0101u8, #[verifier::truncate] (m as u8)]
            },
            Cmd::FusionP(nd) => {
                let n = nd.encode();
                vec![(n << 3) | 0b0000_0111u8]
            },
            Cmd::FusionS(nd) => {
                let n = nd.encode();
                vec![(n << 3) | 0b0000_0110u8]
            },
            Cmd::Fill(nd) => {
                let n = nd.encode();
                vec![(n << 3) | 0b0000_0011u8]
            },
            Cmd::Void(nd) => {
                let n = nd.encode();
                vec![(n << 3) | 0b0000_0010u8]
            },
        };
        assert(bytes@ =~= encoding(*self));
        bytes
    }
}

/// The bytes of a command in a trace, as `Vec::from(cmd)` and `cmd.into()` hand them out.
impl From<Cmd> for Vec<u8> {
    fn from(cmd: Cmd) -> (bytes: Vec<u8>)
        ensures
            bytes@ == encoding(cmd),
    {
        cmd.encode()
    }
}

/// Two vectors with the same bytes need not be the same value, so no one vector can be named
/// as what `from` returns: the contract of `from` speaks of the bytes, and `from_spec` of
/// nothing.
impl vstd::std_specs::convert::FromSpecImpl<Cmd> for Vec<u8> {
    open spec fn obeys_from_spec() -> bool {
        false
    }

    open spec fn from_spec(cmd: Cmd) -> Vec<u8> {
        vstd::pervasive::arbitrary()
    }
}

/// No identifier is larger than one that follows it.
pub open spec fn ascending(s: Seq<BotId>) -> bool {
    forall|i: int, j: int| 0 <= i < j < s.len() ==> s[i] <= s[j]
}

/// The order in which a bot keeps its seeds.
pub open spec fn id_leq() -> spec_fn(BotId, BotId) -> bool {
    |a: BotId, b: BotId| a <= b
}

/// The seeds of a bot that has taken over a bot `bid` with the seeds `other`: its own, `bid`
/// and `other`, in ascending order.
pub open spec fn fused_seeds(own: Seq<BotId>, bid: BotId, other: Seq<BotId>) -> Seq<BotId> {
    (own.push(bid) + other).sort_by(id_leq())
}

/// The seeds of a bot that has taken over another are in ascending order, and they are its
/// own seeds, the identity of the other and the seeds of the other, each as often as there.
pub proof fn lemma_fused_seeds(own: Seq<BotId>, bid: BotId, other: Seq<BotId>)
    ensures
        ascending(fused_seeds(own, bid, other)),
        vstd::relations::sorted_by(fused_seeds(own, bid, other), id_leq()),
        fused_seeds(own, bid, other).to_multiset() == own.to_multiset().insert(bid).add(
            other.to_multiset(),
        ),
{
    let all = own.push(bid) + other;
    to_multiset_build(own, bid);
    vstd::seq_lib::lemma_multiset_commutative(own.push(bid), other);
    assert(vstd::relations::total_ordering(id_leq()));
    all.lemma_sort_by_ensures(id_leq());
    assert(all.sort_by(id_leq()).to_multiset() =~= own.to_multiset().insert(bid).add(
        other.to_multiset(),
    ));
    let out = all.sort_by(id_leq());
    assert forall|i: int, j: int| 0 <= i < j < out.len() implies out[i] <= out[j] by {
        assert(id_leq()(out[i], out[j]));
    }
}

/// The identifiers `2, 3, .., 40` that the first bot can hand out.
pub open spec fn initial_seeds() -> Seq<BotId> {
    Seq::new(39, |i: int| (i + 2) as u64)
}

/// An agent: its identity, its position, and the identities that it can give to the bots
/// it splits off.
#[derive(Debug, Clone)]
pub struct Bot {
    pub bid: BotId,
    pub pos: Cord,
    pub seeds: Vec<BotId>,
}

/// What a bot is in contracts: its identity, its position and its seeds in their order.
#[verifier::ext_equal]
pub struct BotView {
    pub bid: BotId,
    pub pos: Cord,
    pub seeds: Seq<BotId>,
}

impl View for Bot {
    type V = BotView;

    open spec fn view(&self) -> BotView {
        BotView { bid: self.bid, pos: self.pos, seeds: self.seeds@ }
    }
}

/// The views of a list of bots, in its order.
pub open spec fn bot_views(bots: Seq<Bot>) -> Seq<BotView> {
    bots.map_values(|b: Bot| b@)
}

/// Puts `id` into an ascending list at the first place where nothing smaller or equal follows.
fn insert_sorted(v: &mut Vec<BotId>, id: BotId)
    requires
        ascending(old(v)@),
    ensures
        ascending(final(v)@),
        final(v)@.to_multiset() == old(v)@.to_multiset().insert(id),
{
    let mut i: usize = 0;
    while i < v.len() && v[i] <= id
        invariant
            i <= v.len(),
            forall|k: int| 0 <= k < i ==> v[k] <= id,
        decreases v.len() - i,
    {
        i = i + 1;
    }
    proof {
        to_multiset_insert(v@, i as int, id);
    }
    v.insert(i, id);
}

/// Puts every identifier of `src` into the ascending list `acc`.
fn insert_all_sorted(acc: &mut Vec<BotId>, src: &Vec<BotId>)
    requires
        ascending(old(acc)@),
    ensures
        ascending(final(acc)@),
        final(acc)@.to_multiset() == old(acc)@.to_multiset().add(src@.to_multiset()),
{
    let mut k: usize = 0;
    proof {
        src@.subrange(0, 0).to_multiset_ensures();
        assert(src@.subrange(0, 0).to_multiset() =~= Multiset::empty());
        assert(acc@.to_multiset() =~= acc@.to_multiset().add(Multiset::empty()));
    }
    while k < src.len()
        invariant
            k <= src.len(),
            ascending(acc@),
            acc@.to_multiset() == old(acc)@.to_multiset().add(
                src@.subrange(0, k as int).to_multiset(),
            ),
        decreases src.len() - k,
    {
        proof {
            to_multiset_build(src@.subrange(0, k as int), src@[k as int]);
            assert(src@.subrange(0, k as int).push(src@[k as int]) =~= src@.subrange(
                0,
                k as int + 1,
            ));
        }
        insert_sorted(acc, src[k]);
        assert(acc@.to_multiset() =~= old(acc)@.to_multiset().add(
            src@.subrange(0, k as int + 1).to_multiset(),
        ));
        k = k + 1;
    }
    assert(src@.subrange(0, k as int) =~= src@);
}

impl Bot {
    /// The bot that every run starts with.
    pub fn new_at_origin() -> (b: Bot)
        ensures
            b.bid == 1,
            b.pos == (Cord { x: 0, y: 0, z: 0 }),
            b.seeds@ == initial_seeds(),
    {
        let mut seeds: Vec<BotId> = Vec::new();
        let mut id: BotId = 2;
        while id <= 40
            invariant
                2 <= id <= 41,
                seeds.len() == id - 2,
                forall|i: int| 0 <= i < seeds.len() ==> seeds[i] == i + 2,
            decreases 41 - id,
        {
            seeds.push(id);
            id = id + 1;
        }
        assert(seeds@ =~= initial_seeds());
        Bot { bid: 1, pos: Cord::new(0, 0, 0), seeds }
    }

    /// A bot with the given identity, position and seeds.
    pub fn new(bid: BotId, pos: Cord, seeds: Vec<BotId>) -> (b: Bot)
        ensures
            b.bid == bid,
            b.pos == pos,
            b.seeds == seeds,
    {
        Bot { bid, pos, seeds }
    }

    /// Splits off a bot at `pos + nd`. The child takes the first seed as its identity and
    /// the next `m` seeds as its own; the parent keeps the rest.
    pub fn fission(&mut self, nd: Near, m: usize) -> (child: Bot)
        requires
            m < old(self).seeds.len(),
            old(self).pos.can_offset(nd.0),
        ensures
            child.bid == old(self).seeds[0],
            child.pos == old(self).pos.offset(nd.0),
            child.seeds@ == old(self).seeds@.subrange(1, m + 1),
            final(self).seeds@ == old(self).seeds@.subrange(m + 1, old(self).seeds.len() as int),
            final(self).bid == old(self).bid,
            final(self).pos == old(self).pos,
    {
        let rest = self.seeds.split_off(m + 1);
        let mut taken: Vec<BotId> = Vec::new();
        core::mem::swap(&mut taken, &mut self.seeds);
        let bid = taken.remove(0);
        self.seeds = rest;
        assert(taken@ =~= old(self).seeds@.subrange(1, m + 1));
        Bot { bid, pos: self.pos + nd.0, seeds: taken }
    }

    /// Takes over the identity and the seeds of `other`, and puts the seeds in ascending order.
    pub fn fusion(&mut self, other: &Bot)
        ensures
            final(self).seeds@ == fused_seeds(old(self).seeds@, other.bid, other.seeds@),
            final(self).bid == old(self).bid,
            final(self).pos == old(self).pos,
    {
        let mut merged: Vec<BotId> = Vec::new();
        assert(merged@.to_multiset() =~= Multiset::empty()) by {
            merged@.to_multiset_ensures();
        }
        insert_all_sorted(&mut merged, &self.seeds);
        insert_sorted(&mut merged, other.bid);
        insert_all_sorted(&mut merged, &other.seeds);
        proof {
            assert(merged@.to_multiset() =~= old(self).seeds@.to_multiset().insert(other.bid).add(
                other.seeds@.to_multiset(),
            ));
            lemma_fused_seeds(old(self).seeds@, other.bid, other.seeds@);
            assert(vstd::relations::total_ordering(id_leq()));
            assert(vstd::relations::sorted_by(merged@, id_leq()));
            vstd::seq_lib::lemma_sorted_unique(
                merged@,
                fused_seeds(old(self).seeds@, other.bid, other.seeds@),
                id_leq(),
            );
        }
        self.seeds = merged;
    }

    /// A bot with the same identity, position and seeds.
    pub fn duplicate(&self) -> (b: Bot)
        ensures
            b@ == self@,
    {
        let mut seeds: Vec<BotId> = Vec::new();
        let mut k: usize = 0;
        while k < self.seeds.len()
            invariant
                k <= self.seeds.len(),
                seeds@ == self.seeds@.subrange(0, k as int),
            decreases self.seeds.len() - k,
        {
            seeds.push(self.seeds[k]);
            assert(seeds@ =~= self.seeds@.subrange(0, k as int + 1));
            k = k + 1;
        }
        assert(seeds@ =~= self.seeds@);
        Bot { bid: self.bid, pos: self.pos, seeds }
    }

    /// Moves the bot by `d`.
    pub fn smove(&mut self, d: CordDiff)
        requires
            old(self).pos.can_offset(d),
        ensures
            final(self).pos == old(self).pos.offset(d),
            final(self).bid == old(self).bid,
            final(self).seeds == old(self).seeds,
    {
        self.pos = self.pos + d;
    }
}

} // verus!
