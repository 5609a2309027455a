use icfp2018::bot::Cmd::{Fill, Fission, FusionP, FusionS, Halt, LMove, SMove, Void};
use icfp2018::bot::{Bot, Cmd};
use icfp2018::geometry::{Cord, CordDiff, LongLinear, Near, ShortLinear};

#[test]
fn cmd_encode_test() {
    let bytes: Vec<u8> = Halt.into();
    assert_eq!(bytes, vec![255 as u8]);

    assert_eq!(Vec::<u8>::from(Halt), vec![255 as u8]);

    assert_eq!(
        Vec::<u8>::from(SMove(LongLinear(CordDiff::new(12, 0, 0)))),
        vec![0b_00010100, 0b_00011011]
    );
    assert_eq!(
        Vec::<u8>::from(SMove(LongLinear(CordDiff::new(0, 0, -4)))),
        vec![0b_00110100, 0b_00001011]
    );

    assert_eq!(
        Vec::<u8>::from(LMove(
            ShortLinear(CordDiff::new(3, 0, 0)),
            ShortLinear(CordDiff::new(0, -5, 0))
        )),
        vec![0b_10011100, 0b_00001000]
    );
    assert_eq!(
        Vec::<u8>::from(LMove(
            ShortLinear(CordDiff::new(0, -2, 0)),
            ShortLinear(CordDiff::new(0, 0, 2))
        )),
        vec![0b_11101100, 0b_01110011]
    );

    assert_eq!(
        Vec::<u8>::from(Fission(Near(CordDiff::new(0, 0, 1)), 5)),
        vec![0b_01110101, 0b_00000101]
    );

    assert_eq!(
        Vec::<u8>::from(FusionP(Near(CordDiff::new(-1, 1, 0)))),
        vec![0b_00111111]
    );

    assert_eq!(
        Vec::<u8>::from(FusionS(Near(CordDiff::new(1, -1, 0)))),
        vec![0b_10011110]
    );

    assert_eq!(
        Vec::<u8>::from(Fill(Near(CordDiff::new(0, -1, 0)))),
        vec![0b_01010011]
    );

    assert_eq!(
        Vec::<u8>::from(Void(Near(CordDiff::new(1, 0, 1)))),
        vec![0b_10111010]
    );
}

#[test]
fn encode_is_what_from_hands_out() {
    assert_eq!(Cmd::Wait.encode(), vec![0b_11111110]);
    assert_eq!(Cmd::Flip.encode(), vec![0b_11111101]);
    assert_eq!(Cmd::Halt.encode(), vec![0b_11111111]);
    let cmd = Cmd::SMove(LongLinear(CordDiff::new(0, -15, 0)));
    assert_eq!(cmd.encode(), vec![0b_00100100, 0]);
    assert_eq!(cmd.encode(), Vec::<u8>::from(cmd));
    let cmd = Cmd::SMove(LongLinear(CordDiff::new(0, 0, 15)));
    assert_eq!(cmd.encode(), vec![0b_00110100, 30]);
}

#[test]
fn parts_of_an_encoding() {
    let bits = LongLinear(CordDiff::new(0, 7, 0)).encode();
    assert_eq!((bits.a, bits.i), (2, 22));
    let bits = ShortLinear(CordDiff::new(0, 0, -5)).encode();
    assert_eq!((bits.a, bits.i), (3, 0));
    let bits = ShortLinear(CordDiff::new(5, 0, 0)).encode();
    assert_eq!((bits.a, bits.i), (1, 10));
    assert_eq!(Near(CordDiff::new(-1, -1, 0)).encode(), 1);
    assert_eq!(Near(CordDiff::new(1, 1, 0)).encode(), 25);
    assert_eq!(Near(CordDiff::new(0, 0, 1)).encode(), 14);
}

#[test]
fn first_bot_has_seeds_two_to_forty() {
    let bot = Bot::new_at_origin();
    assert_eq!(bot.bid, 1);
    assert_eq!(bot.pos, Cord::new(0, 0, 0));
    assert_eq!(bot.seeds, (2..=40).collect::<Vec<u64>>());
}

#[test]
fn fission_splits_the_seeds() {
    let mut parent = Bot::new_at_origin();
    let child = parent.fission(Near(CordDiff::new(0, 0, 1)), 19);
    assert_eq!(child.bid, 2);
    assert_eq!(child.pos, Cord::new(0, 0, 1));
    assert_eq!(child.seeds, (3..=21).collect::<Vec<u64>>());
    assert_eq!(parent.bid, 1);
    assert_eq!(parent.pos, Cord::new(0, 0, 0));
    assert_eq!(parent.seeds, (22..=40).collect::<Vec<u64>>());
}

#[test]
fn fission_with_no_seed_for_the_child() {
    let mut parent = Bot::new(7, Cord::new(1, 1, 1), vec![9, 11]);
    let child = parent.fission(Near(CordDiff::new(1, 0, 0)), 0);
    assert_eq!(child.bid, 9);
    assert_eq!(child.seeds, Vec::<u64>::new());
    assert_eq!(parent.seeds, vec![11]);
}

#[test]
fn fusion_merges_and_sorts() {
    let mut primary = Bot::new(5, Cord::new(0, 0, 0), vec![30, 10]);
    let secondary = Bot::new(20, Cord::new(0, 0, 1), vec![25, 7]);
    primary.fusion(&secondary);
    assert_eq!(primary.bid, 5);
    assert_eq!(primary.pos, Cord::new(0, 0, 0));
    assert_eq!(primary.seeds, vec![7, 10, 20, 25, 30]);
}

#[test]
fn fission_then_fusion_restores_the_seeds() {
    let mut parent = Bot::new_at_origin();
    let child = parent.fission(Near(CordDiff::new(1, 0, 0)), 5);
    parent.fusion(&child);
    assert_eq!(parent.seeds, (2..=40).collect::<Vec<u64>>());
}

#[test]
fn smove_moves_only_the_position() {
    let mut bot = Bot::new_at_origin();
    bot.smove(CordDiff::new(0, 4, 0));
    assert_eq!(bot.pos, Cord::new(0, 4, 0));
    assert_eq!(bot.bid, 1);
    assert_eq!(bot.seeds.len(), 39);
    let copy = bot.duplicate();
    assert_eq!(copy.pos, bot.pos);
    assert_eq!(copy.seeds, bot.seeds);
}
