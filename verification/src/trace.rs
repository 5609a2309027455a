use crate::bot::{Cmd, encoding};
use vstd::prelude::*;

verus! {

/// The commands of a run, in the order in which they were carried out.
#[derive(Debug, Clone)]
pub struct Trace {
    pub cmds: Vec<Cmd>,
}

/// The bytes of the commands, one command after the other, with nothing between them.
pub open spec fn encoded(cmds: Seq<Cmd>) -> Seq<u8>
    decreases cmds.len(),
{
    if cmds.len() == 0 {
        Seq::empty()
    } else {
        encoded(cmds.drop_last()) + encoding(cmds.last())
    }
}

impl Trace {
    /// The bytes of the trace file.
    pub fn encode(&self) -> (bytes: Vec<u8>)
        ensures
            bytes@ == encoded(self.cmds@),
    {
        let mut bytes: Vec<u8> = Vec::new();
        let mut k: usize = 0;
        assert(self.cmds@.subrange(0, 0) =~= Seq::empty());
        while k < self.cmds.len()
            invariant
                k <= self.cmds.len(),
                bytes@ == encoded(self.cmds@.subrange(0, k as int)),
            decreases self.cmds.len() - k,
        {
            let mut part = self.cmds[k].encode();
            proof {
                let next = self.cmds@.subrange(0, k + 1);
                assert(next.drop_last() =~= self.cmds@.subrange(0, k as int));
                assert(next.last() == self.cmds@[k as int]);
            }
            bytes.append(&mut part);
            k = k + 1;
        }
        assert(self.cmds@.subrange(0, k as int) =~= self.cmds@);
        bytes
    }
}

} // verus!
