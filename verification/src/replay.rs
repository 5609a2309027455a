use crate::bot::{bot_views, Cmd};
use crate::error::NanoBotError;
use crate::geometry::Cord;
use crate::laws::{can_take, clean, lemma_clean_run, lemma_inv_facts, lemma_run_push, run_of};
use crate::state::has_bot_at;
use crate::system::{CmdResult, Harmonics, MAX_TRACE, System};
use crate::trace::Trace;
use vstd::prelude::*;

verus! {

impl System {
    /// Whether a bot stands at `pos`.
    pub fn has_bot(&self, pos: Cord) -> (b: bool)
        ensures
            b == has_bot_at(self@.bots, pos),
    {
        let ghost bots = bot_views(self.bots@);
        let mut k: usize = 0;
        while k < self.bots.len()
            invariant
                k <= self.bots.len(),
                bots == bot_views(self.bots@),
                forall|j: int| 0 <= j < k ==> bots[j].pos != pos,
            decreases self.bots.len() - k,
        {
            if self.bots[k].pos == pos {
                assert(bots[k as int].pos == pos);
                return true;
            }
            k = k + 1;
        }
        false
    }

    /// Whether the state admits the command `cmd` of the bot whose turn it is.
    pub fn admits_cmd(&self, cmd: Cmd) -> (b: bool)
        requires
            self.wf(),
            self@.live(),
        ensures
            b == self@.admits(cmd),
    {
        proof {
            lemma_inv_facts(self@);
        }
        let pos = self.bots[self.bot_index].pos;
        let reserved = self.is_current_bot_reserved_as_fusion_secondary();
        match cmd {
            Cmd::Halt => reserved.is_none() && self.bots.len() == 1 && pos.is_origin()
                && self.harmonics == Harmonics::Low,
            Cmd::Wait | Cmd::Flip => reserved.is_none(),
            Cmd::SMove(lld) => reserved.is_none() && lld.0.is_long_linear(),
            Cmd::LMove(sld1, sld2) => reserved.is_none() && sld1.0.is_short_linear()
                && sld2.0.is_short_linear(),
            Cmd::Fission(nd, m) => reserved.is_none() && nd.0.is_near()
                && m < self.bots[self.bot_index].seeds.len(),
            Cmd::Fill(nd) | Cmd::Void(nd) => reserved.is_none() && nd.0.is_near(),
            Cmd::FusionP(nd) => {
                if reserved.is_none() && nd.0.is_near() {
                    let s_pos = pos + nd.0;
                    self.has_bot(s_pos) && self.reserved_for(s_pos).is_none()
                } else {
                    false
                }
            },
            Cmd::FusionS(nd) => {
                if nd.0.is_near() {
                    let p_pos = pos + nd.0;
                    match reserved {
                        Some(primary) => primary == p_pos && self.has_bot(p_pos),
                        None => false,
                    }
                } else {
                    false
                }
            },
        }
    }

    /// Carries out the commands of `trace`, one after the other, up to and with the first
    /// `Halt`. It stops with an error before the first command that the state cannot take,
    /// and at the end of a trace that has no `Halt`.
    pub fn simulate(&mut self, trace: Trace) -> (res: Result<(), NanoBotError>)
        requires
            old(self).wf(),
        ensures
            final(self).wf(),
            old(self)@.records.len() <= final(self)@.records.len() <= old(self)@.records.len()
                + trace.cmds@.len(),
            clean(old(self)@, trace.cmds@.subrange(0, final(self)@.records.len() - old(self)@.records.len())),
            final(self)@ == run_of(
                old(self)@,
                trace.cmds@.subrange(0, final(self)@.records.len() - old(self)@.records.len()),
            ),
            res is Ok <==> final(self)@.records.len() > old(self)@.records.len() && final(self)@.records.last() is Halt,
            res is Err ==> final(self)@.records.len() - old(self)@.records.len()
                == trace.cmds@.len() || !can_take(
                final(self)@,
                trace.cmds@[final(self)@.records.len() - old(self)@.records.len()],
            ),
    {
        let ghost first = self@;
        let ghost cmds = trace.cmds@;
        let mut k: usize = 0;
        assert(cmds.subrange(0, 0) =~= Seq::<Cmd>::empty());
        while k < trace.cmds.len()
            invariant
                cmds == trace.cmds@,
                first == old(self)@,
                first.inv(),
                self.wf(),
                k <= cmds.len(),
                self@.records.len() == first.records.len() + k,
                clean(first, cmds.subrange(0, k as int)),
                self@ == run_of(first, cmds.subrange(0, k as int)),
                forall|i: int| 0 <= i < k ==> !(#[trigger] cmds[i] is Halt),
            decreases cmds.len() - k,
        {
            let cmd = trace.cmds[k];
            let ghost v = self@;
            proof {
                lemma_inv_facts(v);
                lemma_run_push(first, cmds.subrange(0, k as int), cmd);
                assert(cmds.subrange(0, k + 1) =~= cmds.subrange(0, k as int).push(cmd));
                lemma_clean_run(first, cmds.subrange(0, k as int));
                if k > 0 {
                    assert(v.records.last() == cmds[k - 1]);
                }
            }
            if self.bots.len() == 0 || self.records.len() >= MAX_TRACE || !self.admits_cmd(cmd) {
                return Err(NanoBotError);
            }
            match self.execute_cmd(cmd) {
                CmdResult::Halt => {
                    proof {
                        lemma_clean_run(first, cmds.subrange(0, k + 1));
                    }
                    return Ok(());
                },
                CmdResult::Continue => {
                    proof {
                        lemma_clean_run(first, cmds.subrange(0, k + 1));
                    }
                },
                CmdResult::Interfared => {
                    return Err(NanoBotError);
                },
            }
            k = k + 1;
        }
        proof {
            lemma_clean_run(first, cmds.subrange(0, k as int));
            if k > 0 {
                assert(self@.records.last() == cmds[k - 1]);
            }
        }
        Err(NanoBotError)
    }
}

} // verus!
