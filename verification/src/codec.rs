use crate::bot::{axis_code, axis_part, Cmd, encoding};
use crate::geometry::{CordDiff, LongLinear, Near, ShortLinear};
use crate::trace::encoded;
use vstd::prelude::*;

verus! {

/// The straight displacement of `len` cells along the axis with the code `a`.
pub open spec fn linear_of(a: u8, len: int) -> CordDiff {
    if a == 1 {
        CordDiff { dx: len as i32, dy: 0, dz: 0 }
    } else if a == 2 {
        CordDiff { dx: 0, dy: len as i32, dz: 0 }
    } else {
        CordDiff { dx: 0, dy: 0, dz: len as i32 }
    }
}

/// The near displacement with the code `n`.
pub open spec fn near_of(n: u8) -> CordDiff {
    CordDiff { dx: (n / 9 - 1) as i32, dy: (n / 3 % 3 - 1) as i32, dz: (n % 3 - 1) as i32 }
}

/// The command that the bytes begin with, and the number of its bytes; nothing where they
/// begin with no command.
pub open spec fn decoding(bytes: Seq<u8>) -> Option<(Cmd, nat)> {
    if bytes.len() == 0 {
        None
    } else {
        let b = bytes[0];
        if b == 0b1111_1111u8 {
            Some((Cmd::Halt, 1nat))
        } else if b == 0b1111_1110u8 {
            Some((Cmd::Wait, 1nat))
        } else if b == 0b1111_1101u8 {
            Some((Cmd::Flip, 1nat))
        } else if b & 0b0000_1111u8 == 0b0000_0100u8 {
            if bytes.len() < 2 {
                None
            } else {
                Some(
                    (
                        Cmd::SMove(LongLinear(linear_of((b >> 4) & 0b11u8, bytes[1] - 15))),
                        2nat,
                    ),
                )
            }
        } else if b & 0b0000_1111u8 == 0b0000_1100u8 {
            if bytes.len() < 2 {
                None
            } else {
                Some(
                    (
                        Cmd::LMove(
                            ShortLinear(
                                linear_of((b >> 4) & 0b11u8, (bytes[1] & 0b0000_1111u8) - 5),
                            ),
                            ShortLinear(linear_of((b >> 6) & 0b11u8, (bytes[1] >> 4) - 5)),
                        ),
                        2nat,
                    ),
                )
            }
        } else if b & 0b0000_0111u8 == 0b0000_0101u8 {
            if bytes.len() < 2 {
                None
            } else {
                Some((Cmd::Fission(Near(near_of(b >> 3)), bytes[1] as usize), 2nat))
            }
        } else if b & 0b0000_0111u8 == 0b0000_0011u8 {
            Some((Cmd::Fill(Near(near_of(b >> 3))), 1nat))
        } else if b & 0b0000_0111u8 == 0b0000_0010u8 {
            Some((Cmd::Void(Near(near_of(b >> 3))), 1nat))
        } else if b & 0b0000_0111u8 == 0b0000_0111u8 {
            Some((Cmd::FusionP(Near(near_of(b >> 3))), 1nat))
        } else if b & 0b0000_0111u8 == 0b0000_0110u8 {
            Some((Cmd::FusionS(Near(near_of(b >> 3))), 1nat))
        } else {
            None
        }
    }
}

/// The commands that the bytes hold, one after the other; nothing where the bytes are not
/// the bytes of commands.
pub open spec fn decoded(bytes: Seq<u8>) -> Option<Seq<Cmd>>
    decreases bytes.len(),
{
    if bytes.len() == 0 {
        Some(Seq::empty())
    } else {
        match decoding(bytes) {
            Some((cmd, used)) => if 0 < used <= bytes.len() {
                match decoded(bytes.subrange(used as int, bytes.len() as int)) {
                    Some(rest) => Some(seq![cmd] + rest),
                    None => None,
                }
            } else {
                None
            },
            None => None,
        }
    }
}

/// A command that a trace can hold: its displacements are of their class, and a fission
/// hands over at most 255 seeds.
pub open spec fn encodable(cmd: Cmd) -> bool {
    cmd.well_formed() && (cmd matches Cmd::Fission(_, m) ==> m <= 255)
}

proof fn lemma_bits_smove(a: u8)
    requires
        1 <= a <= 3,
    ensures
        ((a << 4) | 0b0000_0100u8) & 0b0000_1111u8 == 0b0000_0100u8,
        (((a << 4) | 0b0000_0100u8) >> 4) & 0b11u8 == a,
        ((a << 4) | 0b0000_0100u8) < 0b1111_1101u8,
{
    assert(((a << 4) | 0b0000_0100u8) & 0b0000_1111u8 == 0b0000_0100u8 && (((a << 4)
        | 0b0000_0100u8) >> 4) & 0b11u8 == a && ((a << 4) | 0b0000_0100u8) < 0b1111_1101u8)
        by (bit_vector)
        requires
            1 <= a <= 3,
    ;
}

proof fn lemma_bits_lmove(a1: u8, a2: u8, i1: u8, i2: u8)
    requires
        1 <= a1 <= 3,
        1 <= a2 <= 3,
        i1 <= 10,
        i2 <= 10,
    ensures
        ((a2 << 6) | (a1 << 4) | 0b0000_1100u8) & 0b0000_1111u8 == 0b0000_1100u8,
        (((a2 << 6) | (a1 << 4) | 0b0000_1100u8) >> 4) & 0b11u8 == a1,
        (((a2 << 6) | (a1 << 4) | 0b0000_1100u8) >> 6) & 0b11u8 == a2,
        ((a2 << 6) | (a1 << 4) | 0b0000_1100u8) < 0b1111_1101u8,
        ((i2 << 4) | i1) & 0b0000_1111u8 == i1,
        ((i2 << 4) | i1) >> 4 == i2,
{
    assert(((a2 << 6) | (a1 << 4) | 0b0000_1100u8) & 0b0000_1111u8 == 0b0000_1100u8 && (((a2
        << 6) | (a1 << 4) | 0b0000_1100u8) >> 4) & 0b11u8 == a1 && (((a2 << 6) | (a1 << 4)
        | 0b0000_1100u8) >> 6) & 0b11u8 == a2 && ((a2 << 6) | (a1 << 4) | 0b0000_1100u8)
        < 0b1111_1101u8) by (bit_vector)
        requires
            1 <= a1 <= 3,
            1 <= a2 <= 3,
    ;
    assert(((i2 << 4) | i1) & 0b0000_1111u8 == i1 && ((i2 << 4) | i1) >> 4 == i2) by (bit_vector)
        requires
            i1 <= 10,
            i2 <= 10,
    ;
}

proof fn lemma_bits_near(n: u8, k: u8)
    requires
        n <= 26,
        2 <= k <= 7,
        k != 4,
    ensures
        ((n << 3) | k) >> 3 == n,
        ((n << 3) | k) & 0b0000_0111u8 == k,
        ((n << 3) | k) & 0b0000_1111u8 != 0b0000_0100u8,
        ((n << 3) | k) & 0b0000_1111u8 != 0b0000_1100u8,
        ((n << 3) | k) < 0b1111_1101u8,
{
    assert(((n << 3) | k) >> 3 == n && ((n << 3) | k) & 0b0000_0111u8 == k && ((n << 3) | k)
        & 0b0000_1111u8 != 0b0000_0100u8 && ((n << 3) | k) & 0b0000_1111u8 != 0b0000_1100u8 && ((n
        << 3) | k) < 0b1111_1101u8) by (bit_vector)
        requires
            n <= 26,
            2 <= k <= 7,
            k != 4,
    ;
}

/// Read back, the bytes of a command that a trace can hold give the command, whatever
/// follows them.
#[verifier::rlimit(30)]
pub proof fn lemma_decoding(cmd: Cmd, rest: Seq<u8>)
    requires
        encodable(cmd),
    ensures
        decoding(encoding(cmd) + rest) == Some((cmd, encoding(cmd).len())),
        encoding(cmd).len() > 0,
{
    let bytes = encoding(cmd) + rest;
    assert(bytes[0] == encoding(cmd)[0]);
    match cmd {
        Cmd::Halt | Cmd::Wait | Cmd::Flip => {},
        Cmd::SMove(lld) => {
            lemma_bits_smove(axis_code(lld.0));
            assert(bytes[1] == encoding(cmd)[1]);
            assert(linear_of(axis_code(lld.0), axis_part(lld.0)) == lld.0);
        },
        Cmd::LMove(sld1, sld2) => {
            lemma_bits_lmove(
                axis_code(sld1.0),
                axis_code(sld2.0),
                (axis_part(sld1.0) + 5) as u8,
                (axis_part(sld2.0) + 5) as u8,
            );
            assert(bytes[1] == encoding(cmd)[1]);
            assert(linear_of(axis_code(sld1.0), axis_part(sld1.0)) == sld1.0);
            assert(linear_of(axis_code(sld2.0), axis_part(sld2.0)) == sld2.0);
        },
        Cmd::Fission(nd, m) => {
            lemma_bits_near(nd.code(), 5);
            assert(bytes[1] == encoding(cmd)[1]);
            assert(near_of(nd.code()) == nd.0);
        },
        Cmd::Fill(nd) => {
            lemma_bits_near(nd.code(), 3);
            assert(near_of(nd.code()) == nd.0);
        },
        Cmd::Void(nd) => {
            lemma_bits_near(nd.code(), 2);
            assert(near_of(nd.code()) == nd.0);
        },
        Cmd::FusionP(nd) => {
            lemma_bits_near(nd.code(), 7);
            assert(near_of(nd.code()) == nd.0);
        },
        Cmd::FusionS(nd) => {
            lemma_bits_near(nd.code(), 6);
            assert(near_of(nd.code()) == nd.0);
        },
    }
}

/// The bytes of a trace are the bytes of its first command and the bytes of the rest.
pub proof fn lemma_encoded_first(cmds: Seq<Cmd>)
    requires
        cmds.len() > 0,
    ensures
        encoded(cmds) == encoding(cmds[0]) + encoded(cmds.drop_first()),
    decreases cmds.len(),
{
    if cmds.len() == 1 {
        assert(cmds.drop_last() =~= Seq::<Cmd>::empty());
        assert(cmds.drop_first() =~= Seq::<Cmd>::empty());
        assert(encoded(cmds) =~= encoding(cmds[0]) + encoded(cmds.drop_first()));
    } else {
        lemma_encoded_first(cmds.drop_last());
        assert(cmds.drop_last().drop_first() =~= cmds.drop_first().drop_last());
        assert(cmds.drop_first().last() == cmds.last());
        assert(encoded(cmds) =~= encoding(cmds[0]) + encoded(cmds.drop_first()));
    }
}

/// Read back, the bytes of a trace give its commands, where a trace can hold each of them.
pub proof fn lemma_decoded(cmds: Seq<Cmd>)
    requires
        forall|i: int| 0 <= i < cmds.len() ==> encodable(#[trigger] cmds[i]),
    ensures
        decoded(encoded(cmds)) == Some(cmds),
    decreases cmds.len(),
{
    if cmds.len() > 0 {
        let rest = cmds.drop_first();
        lemma_encoded_first(cmds);
        lemma_decoding(cmds[0], encoded(rest));
        let bytes = encoded(cmds);
        let used = encoding(cmds[0]).len();
        assert(bytes.subrange(used as int, bytes.len() as int) =~= encoded(rest));
        assert forall|i: int| 0 <= i < rest.len() implies encodable(#[trigger] rest[i]) by {
            assert(rest[i] == cmds[i + 1]);
        }
        lemma_decoded(rest);
        assert(seq![cmds[0]] + rest =~= cmds);
    }
}

} // verus!
