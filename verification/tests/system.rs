use icfp2018::bot::Cmd;
use icfp2018::geometry::{Cord, CordDiff, LongLinear, Near, ShortLinear};
use icfp2018::model::{Model, ModelId};
use icfp2018::moves::MoveCmds;
use icfp2018::system::{CmdResult, Harmonics, System};
use icfp2018::target::{PriorityTarget, PriorityTargets};

fn model_of(id: ModelId, r: u8, full: &[(i32, i32, i32)]) -> Model {
    let side = r as usize;
    let mut data = vec![0u8; 1 + (side * side * side + 7) / 8];
    data[0] = r;
    for &(x, y, z) in full {
        let index = Cord::new(x, y, z).to_linear_index(side);
        data[1 + index / 8] |= 1 << (index % 8);
    }
    Model::read(id, &data).unwrap()
}

fn smove(dx: i32, dy: i32, dz: i32) -> Cmd {
    Cmd::SMove(LongLinear(CordDiff::new(dx, dy, dz)))
}

fn near(dx: i32, dy: i32, dz: i32) -> Near {
    Near(CordDiff::new(dx, dy, dz))
}

fn same(a: &[Cmd], b: &[Cmd]) -> bool {
    a.len() == b.len() && a.iter().zip(b).all(|(x, y)| x.encode() == y.encode())
}

#[test]
fn a_new_system() {
    let sys = System::new(&model_of(ModelId::Assemble(None), 3, &[(1, 0, 1)]));
    assert_eq!(sys.energy, 0);
    assert_eq!(sys.harmonics, Harmonics::Low);
    assert_eq!(sys.bots.len(), 1);
    assert_eq!(sys.bot_index, 0);
    assert_eq!(sys.current_bot().bid, 1);
    assert_eq!(sys.current_bot().pos, Cord::new(0, 0, 0));
    assert_eq!(sys.records.len(), 0);
    assert_eq!(sys.matrix.full, vec![false; 27]);
    assert!(sys.is_interfared(Cord::new(0, 0, 0)));
    assert!(!sys.is_interfared(Cord::new(1, 0, 1)));
    assert_eq!(
        sys.priority_targets.priority_targets,
        vec![PriorityTarget { priority: 0, cord: Cord::new(1, 0, 1) }]
    );
}

#[test]
fn wait_costs_the_step() {
    let mut sys = System::new(&model_of(ModelId::Assemble(None), 3, &[]));
    assert_eq!(sys.execute_cmd(Cmd::Wait), CmdResult::Continue);
    assert_eq!(sys.energy, 3 * 27 + 20);
    assert_eq!(sys.records.len(), 1);
    assert_eq!(sys.bot_index, 0);
}

#[test]
fn straight_move_costs_two_a_cell() {
    let mut sys = System::new(&model_of(ModelId::Assemble(None), 20, &[]));
    assert_eq!(sys.execute_cmd(smove(0, 0, 15)), CmdResult::Continue);
    assert_eq!(sys.energy, 30 + 3 * 8000 + 20);
    assert_eq!(sys.current_bot().pos, Cord::new(0, 0, 15));
    // Only the place of the bot is claimed in the new step.
    assert!(!sys.is_interfared(Cord::new(0, 0, 7)));
    assert!(sys.is_interfared(Cord::new(0, 0, 15)));
}

#[test]
fn corner_move_costs_two_a_cell_and_four() {
    let mut sys = System::new(&model_of(ModelId::Assemble(None), 20, &[]));
    let cmd = Cmd::LMove(ShortLinear(CordDiff::new(3, 0, 0)), ShortLinear(CordDiff::new(0, 5, 0)));
    assert_eq!(sys.execute_cmd(cmd), CmdResult::Continue);
    assert_eq!(sys.energy, 2 * (3 + 2 + 5) + 3 * 8000 + 20);
    assert_eq!(sys.current_bot().pos, Cord::new(3, 5, 0));
}

#[test]
fn a_move_out_of_the_grid_interferes_and_changes_nothing() {
    let mut sys = System::new(&model_of(ModelId::Assemble(None), 3, &[]));
    assert_eq!(sys.execute_cmd(smove(3, 0, 0)), CmdResult::Interfared);
    assert_eq!(sys.execute_cmd(smove(0, -1, 0)), CmdResult::Interfared);
    assert_eq!(sys.energy, 0);
    assert_eq!(sys.records.len(), 0);
    assert_eq!(sys.current_bot().pos, Cord::new(0, 0, 0));
}

#[test]
fn a_move_through_a_full_voxel_interferes() {
    // Every cell of the way is looked at, not only the first.
    let mut sys = System::new(&model_of(ModelId::Disassemble(None), 5, &[(3, 0, 0)]));
    assert_eq!(sys.execute_cmd(smove(4, 0, 0)), CmdResult::Interfared);
    assert_eq!(sys.execute_cmd(smove(3, 0, 0)), CmdResult::Interfared);
    assert_eq!(sys.execute_cmd(smove(2, 0, 0)), CmdResult::Continue);
    let corner = Cmd::LMove(ShortLinear(CordDiff::new(0, 1, 0)), ShortLinear(CordDiff::new(2, 0, 0)));
    assert_eq!(sys.execute_cmd(corner), CmdResult::Continue);
    assert_eq!(sys.current_bot().pos, Cord::new(4, 1, 0));
    let back = Cmd::LMove(ShortLinear(CordDiff::new(0, -1, 0)), ShortLinear(CordDiff::new(-2, 0, 0)));
    assert_eq!(sys.execute_cmd(back), CmdResult::Interfared);
}

#[test]
fn fill_and_void_and_their_prices() {
    let mut sys = System::new(&model_of(ModelId::Assemble(None), 3, &[(1, 0, 0), (1, 1, 0)]));
    let step = 3 * 27 + 20;
    assert_eq!(sys.priority_targets.priority_targets.len(), 2);
    assert_eq!(sys.execute_cmd(Cmd::Fill(near(1, 0, 0))), CmdResult::Continue);
    assert_eq!(sys.energy, 12 + step);
    assert!(sys.matrix.is_full(Cord::new(1, 0, 0)));
    assert_eq!(
        sys.priority_targets.priority_targets,
        vec![PriorityTarget { priority: 1, cord: Cord::new(1, 1, 0) }]
    );
    // A full voxel can neither be filled again nor entered.
    assert_eq!(sys.execute_cmd(Cmd::Fill(near(1, 0, 0))), CmdResult::Interfared);
    assert_eq!(sys.execute_cmd(smove(1, 0, 0)), CmdResult::Interfared);
    assert_eq!(sys.energy, 12 + step);
    // Voiding a full voxel gives twelve back.
    assert_eq!(sys.execute_cmd(Cmd::Void(near(1, 0, 0))), CmdResult::Continue);
    assert_eq!(sys.energy, 12 - 12 + 2 * step);
    assert!(!sys.matrix.is_full(Cord::new(1, 0, 0)));
    // Voiding a void voxel costs three.
    assert_eq!(sys.execute_cmd(Cmd::Void(near(1, 0, 0))), CmdResult::Continue);
    assert_eq!(sys.energy, 12 - 12 + 3 + 3 * step);
    assert_eq!(sys.records.len(), 3);
}

#[test]
fn fill_outside_the_grid_interferes() {
    let mut sys = System::new(&model_of(ModelId::Assemble(None), 3, &[]));
    assert_eq!(sys.execute_cmd(Cmd::Fill(near(-1, 0, 0))), CmdResult::Interfared);
    assert_eq!(sys.execute_cmd(Cmd::Void(near(0, 0, -1))), CmdResult::Interfared);
    assert_eq!(sys.records.len(), 0);
}

#[test]
fn fission_then_both_act_then_fusion() {
    let mut sys = System::new(&model_of(ModelId::Assemble(None), 4, &[]));
    let volume = 3 * 64;
    assert_eq!(sys.execute_cmd(Cmd::Fission(near(0, 0, 1), 5)), CmdResult::Continue);
    assert_eq!(sys.energy, 24 + volume + 20);
    assert_eq!(sys.bots.len(), 2);
    assert_eq!(sys.bots[0].bid, 1);
    assert_eq!(sys.bots[0].seeds, (8..=40).collect::<Vec<u64>>());
    assert_eq!(sys.bots[1].bid, 2);
    assert_eq!(sys.bots[1].pos, Cord::new(0, 0, 1));
    assert_eq!(sys.bots[1].seeds, (3..=7).collect::<Vec<u64>>());
    assert_eq!(sys.bot_index, 0);

    // The first bot fills a voxel, the second may not touch it in the same step.
    assert_eq!(sys.execute_cmd(Cmd::Fill(near(1, 0, 0))), CmdResult::Continue);
    assert_eq!(sys.bot_index, 1);
    assert_eq!(sys.execute_cmd(Cmd::Void(near(1, 0, -1))), CmdResult::Interfared);
    assert_eq!(sys.execute_cmd(Cmd::Fill(near(1, 0, -1))), CmdResult::Interfared);
    assert_eq!(sys.bot_index, 1);
    assert_eq!(sys.execute_cmd(Cmd::Wait), CmdResult::Continue);
    assert_eq!(sys.bot_index, 0);
    assert_eq!(sys.energy, 24 + volume + 20 + 12 + volume + 40);

    // Fusion: the first takes the second over.
    assert!(sys.is_current_bot_reserved_as_fusion_secondary().is_none());
    assert_eq!(sys.find_current_bot_fusion_opponent().map(|b| b.bid), Some(2));
    assert_eq!(sys.execute_cmd(Cmd::FusionP(near(0, 0, 1))), CmdResult::Continue);
    assert_eq!(sys.is_current_bot_reserved_as_fusion_secondary(), Some(Cord::new(0, 0, 0)));
    assert!(sys.find_current_bot_fusion_opponent().is_none());
    assert_eq!(sys.execute_cmd(Cmd::FusionS(near(0, 0, -1))), CmdResult::Continue);
    assert_eq!(sys.bots.len(), 1);
    assert_eq!(sys.bots[0].bid, 1);
    assert_eq!(sys.bots[0].seeds, (2..=40).collect::<Vec<u64>>());
    assert_eq!(sys.energy, 24 + volume + 20 + 12 + volume + 40 - 24 + volume + 40);
    assert!(sys.is_current_bot_reserved_as_fusion_secondary().is_none());
}

#[test]
fn flip_changes_the_price_of_the_following_steps() {
    let mut sys = System::new(&model_of(ModelId::Assemble(None), 2, &[]));
    assert_eq!(sys.execute_cmd(Cmd::Flip), CmdResult::Continue);
    assert_eq!(sys.harmonics, Harmonics::High);
    assert_eq!(sys.energy, 3 * 8 + 20);
    assert_eq!(sys.execute_cmd(Cmd::Wait), CmdResult::Continue);
    assert_eq!(sys.energy, 3 * 8 + 20 + 30 * 8 + 20);
    assert_eq!(sys.execute_cmd(Cmd::Flip), CmdResult::Continue);
    assert_eq!(sys.harmonics, Harmonics::Low);
    assert_eq!(sys.energy, 3 * 8 + 20 + 2 * (30 * 8 + 20));
}

#[test]
fn halt_ends_the_run() {
    let mut sys = System::new(&model_of(ModelId::Assemble(None), 2, &[]));
    assert_eq!(sys.execute_cmd(Cmd::Halt), CmdResult::Halt);
    assert_eq!(sys.bots.len(), 0);
    assert_eq!(sys.energy, 3 * 8 + 20);
    assert!(same(&sys.records, &[Cmd::Halt]));
}

#[test]
fn fission_is_offered_toward_the_first_free_face() {
    let sys = System::new(&model_of(ModelId::Assemble(None), 3, &[]));
    // Of the six faces, in their order, (0, 0, 1) is the first in the grid.
    let cmd = sys.can_current_bot_fisson().unwrap();
    assert_eq!(cmd.encode(), Cmd::Fission(near(0, 0, 1), 19).encode());
    let blocked = System::new(&model_of(ModelId::Disassemble(None), 3, &[(0, 0, 1), (0, 1, 0)]));
    let cmd = blocked.can_current_bot_fisson().unwrap();
    assert_eq!(cmd.encode(), Cmd::Fission(near(1, 0, 0), 19).encode());
    let shut = System::new(&model_of(
        ModelId::Disassemble(None),
        3,
        &[(0, 0, 1), (0, 1, 0), (1, 0, 0)],
    ));
    assert!(shut.can_current_bot_fisson().is_none());
}

#[test]
fn ground_targets_all_have_priority_zero() {
    let model = model_of(ModelId::Assemble(None), 3, &[(0, 0, 0), (1, 0, 0), (2, 0, 0)]);
    let queue = PriorityTargets::new(&model);
    assert_eq!(
        queue.priority_targets,
        vec![
            PriorityTarget { priority: 0, cord: Cord::new(0, 0, 0) },
            PriorityTarget { priority: 0, cord: Cord::new(1, 0, 0) },
            PriorityTarget { priority: 0, cord: Cord::new(2, 0, 0) },
        ]
    );
    assert_eq!(
        PriorityTargets::top_priority_targets(&queue.priority_targets),
        vec![Cord::new(0, 0, 0), Cord::new(1, 0, 0), Cord::new(2, 0, 0)]
    );
}

#[test]
fn a_column_has_priorities_zero_one_two() {
    let column = [(0, 0, 0), (0, 1, 0), (0, 2, 0)];
    let queue = PriorityTargets::new(&model_of(ModelId::Assemble(None), 3, &column));
    assert_eq!(
        queue.priority_targets,
        vec![
            PriorityTarget { priority: 0, cord: Cord::new(0, 0, 0) },
            PriorityTarget { priority: 1, cord: Cord::new(0, 1, 0) },
            PriorityTarget { priority: 2, cord: Cord::new(0, 2, 0) },
        ]
    );
    assert_eq!(
        PriorityTargets::top_priority_targets(&queue.priority_targets),
        vec![Cord::new(0, 0, 0)]
    );
    // Taken apart, the top comes first.
    let mut queue = PriorityTargets::new(&model_of(ModelId::Disassemble(None), 3, &column));
    assert_eq!(
        queue.priority_targets,
        vec![
            PriorityTarget { priority: -2, cord: Cord::new(0, 2, 0) },
            PriorityTarget { priority: -1, cord: Cord::new(0, 1, 0) },
            PriorityTarget { priority: 0, cord: Cord::new(0, 0, 0) },
        ]
    );
    assert_eq!(
        PriorityTargets::top_priority_targets(&queue.priority_targets),
        vec![Cord::new(0, 2, 0)]
    );
    queue.remove(Cord::new(0, 2, 0));
    queue.remove(Cord::new(1, 1, 1));
    assert_eq!(
        PriorityTargets::top_priority_targets(&queue.priority_targets),
        vec![Cord::new(0, 1, 0)]
    );
    assert!(!queue.is_empty());
    queue.remove(Cord::new(0, 1, 0));
    queue.remove(Cord::new(0, 0, 0));
    assert!(queue.is_empty());
    assert_eq!(PriorityTargets::top_priority_targets(&queue.priority_targets), vec![]);
}

#[test]
fn priority_is_the_shortest_way_from_the_ground() {
    // An arch: two legs of height two, joined at the top, and one leg is one voxel
    // nearer to the far end of the bar.
    let arch = [(0, 0, 0), (0, 1, 0), (0, 2, 0), (1, 2, 0), (2, 2, 0), (3, 2, 0), (3, 1, 0), (3, 0, 0)];
    let queue = PriorityTargets::new(&model_of(ModelId::Assemble(None), 4, &arch));
    let rank = |x: i32, y: i32| {
        queue
            .priority_targets
            .iter()
            .find(|t| t.cord == Cord::new(x, y, 0))
            .map(|t| t.priority)
    };
    assert_eq!(queue.priority_targets.len(), 8);
    assert_eq!(rank(0, 0), Some(0));
    assert_eq!(rank(3, 0), Some(0));
    assert_eq!(rank(0, 2), Some(2));
    assert_eq!(rank(1, 2), Some(3));
    assert_eq!(rank(2, 2), Some(3));
    assert_eq!(rank(3, 2), Some(2));
}

#[test]
fn targets_that_hang_in_the_air_are_left_out() {
    let queue = PriorityTargets::new(&model_of(ModelId::Assemble(None), 3, &[(0, 0, 0), (2, 2, 2)]));
    assert_eq!(
        queue.priority_targets,
        vec![PriorityTarget { priority: 0, cord: Cord::new(0, 0, 0) }]
    );
}

#[test]
fn free_targets_leave_out_what_the_step_has_claimed() {
    let mut sys = System::new(&model_of(ModelId::Assemble(None), 4, &[(1, 0, 0), (0, 0, 1), (1, 1, 0)]));
    assert_eq!(sys.free_priority_targets(), vec![Cord::new(0, 0, 1), Cord::new(1, 0, 0)]);
    assert_eq!(sys.execute_cmd(Cmd::Fission(near(0, 1, 0), 0)), CmdResult::Continue);
    assert_eq!(sys.execute_cmd(Cmd::Fill(near(0, 0, 1))), CmdResult::Continue);
    // The second bot sees the filled voxel claimed and gone from the queue.
    assert_eq!(sys.free_priority_targets(), vec![Cord::new(1, 0, 0)]);
    assert_eq!(sys.execute_cmd(Cmd::Fill(near(1, -1, 0))), CmdResult::Continue);
    assert_eq!(sys.free_priority_targets(), vec![Cord::new(1, 1, 0)]);
}

#[test]
fn two_straight_moves_become_one() {
    let out = MoveCmds::compress(vec![smove(3, 0, 0), smove(4, 0, 0)]);
    assert!(same(&out, &[smove(7, 0, 0)]));
}

#[test]
fn a_turn_becomes_a_corner_move() {
    let out = MoveCmds::compress(vec![smove(3, 0, 0), smove(0, -5, 0)]);
    let corner = Cmd::LMove(ShortLinear(CordDiff::new(3, 0, 0)), ShortLinear(CordDiff::new(0, -5, 0)));
    assert!(same(&out, &[corner]));
}

#[test]
fn compression_of_a_longer_way() {
    let mut way = Vec::new();
    for _ in 0..17 {
        way.push(smove(1, 0, 0));
    }
    way.push(smove(0, 1, 0));
    way.push(smove(0, 1, 0));
    way.push(smove(0, 0, 1));
    // Fifteen in a row, then two and a turn of two, then one.
    let first = MoveCmds::compress_smove(way.clone());
    assert!(same(&first, &[smove(15, 0, 0), smove(2, 0, 0), smove(0, 2, 0), smove(0, 0, 1)]));
    let corner = Cmd::LMove(ShortLinear(CordDiff::new(2, 0, 0)), ShortLinear(CordDiff::new(0, 2, 0)));
    let both = MoveCmds::compress(way);
    assert!(same(&both, &[smove(15, 0, 0), corner, smove(0, 0, 1)]));
    // A long straight move is not made part of a corner move.
    let out = MoveCmds::compress_lmove(vec![smove(6, 0, 0), smove(0, 1, 0), smove(0, 0, 1)]);
    let late = Cmd::LMove(ShortLinear(CordDiff::new(0, 1, 0)), ShortLinear(CordDiff::new(0, 0, 1)));
    assert!(same(&out, &[smove(6, 0, 0), late]));
    assert!(same(&MoveCmds::compress(vec![]), &[]));
    assert!(same(&MoveCmds::compress(vec![Cmd::Wait, smove(1, 0, 0)]), &[Cmd::Wait, smove(1, 0, 0)]));
    // Back and forth is no straight move: the sum is nothing.
    let out = MoveCmds::compress(vec![smove(1, 0, 0), smove(-1, 0, 0)]);
    let there = Cmd::LMove(ShortLinear(CordDiff::new(1, 0, 0)), ShortLinear(CordDiff::new(-1, 0, 0)));
    assert!(same(&out, &[there]));
}

#[test]
fn the_way_round_a_wall() {
    // A wall at x = 1 with a gap at z = 2.
    let wall = [(1, 0, 0), (1, 0, 1), (1, 1, 0), (1, 1, 1), (1, 1, 2), (1, 2, 0), (1, 2, 1), (1, 2, 2)];
    let sys = System::new(&model_of(ModelId::Disassemble(None), 3, &wall));
    let way = sys.move_to(Cord::new(0, 0, 0), Cord::new(2, 0, 0));
    let there = Cmd::LMove(ShortLinear(CordDiff::new(0, 0, 2)), ShortLinear(CordDiff::new(2, 0, 0)));
    assert!(same(&way.cmds, &[there, smove(0, 0, -2)]));
    // The moves are as long as the shortest way, six cells, and enter free voxels only.
    let cells: u64 = way
        .cmds
        .iter()
        .map(|cmd| match cmd {
            Cmd::SMove(l) => l.0.mlen(),
            Cmd::LMove(a, b) => a.0.mlen() + b.0.mlen(),
            _ => 0,
        })
        .sum();
    assert_eq!(cells, 6);
    let mut walker = System::new(&model_of(ModelId::Disassemble(None), 3, &wall));
    for cmd in &way.cmds {
        assert_eq!(walker.execute_cmd(*cmd), CmdResult::Continue);
    }
    assert_eq!(walker.current_bot().pos, Cord::new(2, 0, 0));
    assert_eq!(sys.move_to_first_or_wait_cmd(Cord::new(0, 0, 0), Cord::new(2, 0, 0)).encode(), there.encode());
    // No way into the wall, and none to where the bot stands.
    assert_eq!(sys.move_to(Cord::new(0, 0, 0), Cord::new(1, 1, 1)).cmds.len(), 0);
    assert_eq!(sys.move_to(Cord::new(0, 0, 0), Cord::new(0, 0, 0)).cmds.len(), 0);
    assert_eq!(sys.move_to(Cord::new(0, 0, 0), Cord::new(5, 0, 0)).cmds.len(), 0);
    assert_eq!(
        sys.move_to_first_or_wait_cmd(Cord::new(0, 0, 0), Cord::new(1, 1, 1)).encode(),
        Cmd::Wait.encode()
    );
}

#[test]
fn the_way_to_a_voxel_next_to_a_target() {
    let sys = System::new(&model_of(ModelId::Disassemble(None), 4, &[(3, 0, 3)]));
    let found = sys.move_to_near(Cord::new(0, 0, 0), &vec![Cord::new(3, 0, 3)]).ok().unwrap();
    assert_eq!(found.target, Cord::new(3, 0, 3));
    assert_eq!(found.final_pos + found.target_nd.0, found.target);
    assert!(found.target_nd.0.is_near());
    // Four steps are needed: to (2, 0, 2), for one.
    let steps: u64 = found
        .move_cmds
        .cmds
        .iter()
        .map(|cmd| match cmd {
            Cmd::SMove(l) => l.0.mlen(),
            Cmd::LMove(a, b) => a.0.mlen() + b.0.mlen(),
            _ => 0,
        })
        .sum();
    assert_eq!(steps, 4);
    let dist = found.final_pos - Cord::new(0, 0, 0);
    assert_eq!(dist.mlen(), 4);
    // A target at hand needs no move.
    let found = sys.move_to_near(Cord::new(2, 0, 3), &vec![Cord::new(3, 0, 3)]).ok().unwrap();
    assert_eq!(found.move_cmds.cmds.len(), 0);
    assert_eq!(found.final_pos, Cord::new(2, 0, 3));
    assert_eq!(found.target_nd.0, CordDiff::new(1, 0, 0));
    // No target, no way.
    assert!(sys.move_to_near(Cord::new(0, 0, 0), &vec![]).is_err());
    assert!(sys.move_to_near(Cord::new(0, 0, 0), &vec![Cord::new(9, 9, 9)]).is_err());
}

fn shift_of(cmds: &[Cmd]) -> (i64, i64, i64) {
    let mut sum = (0i64, 0i64, 0i64);
    for cmd in cmds {
        let parts = match cmd {
            Cmd::SMove(l) => vec![l.0],
            Cmd::LMove(a, b) => vec![a.0, b.0],
            _ => vec![],
        };
        for d in parts {
            sum = (sum.0 + d.dx as i64, sum.1 + d.dy as i64, sum.2 + d.dz as i64);
        }
    }
    sum
}

#[test]
fn compressed_moves_keep_the_displacement_and_are_valid() {
    // Ways of unit steps, made from a fixed sequence of numbers.
    let units = [
        smove(1, 0, 0),
        smove(-1, 0, 0),
        smove(0, 1, 0),
        smove(0, -1, 0),
        smove(0, 0, 1),
        smove(0, 0, -1),
    ];
    let mut seed: u32 = 12345;
    for round in 0..200 {
        let mut way = Vec::new();
        for _ in 0..(round % 40) {
            seed = seed.wrapping_mul(1103515245).wrapping_add(12345);
            // Long straight stretches with turns now and then.
            let pick = if (seed >> 16) % 4 == 0 { ((seed >> 20) % 6) as usize } else { round % 6 };
            way.push(units[pick]);
        }
        let out = MoveCmds::compress(way.clone());
        assert_eq!(shift_of(&out), shift_of(&way));
        assert!(out.len() <= way.len());
        assert_eq!(out.is_empty(), way.is_empty());
        for cmd in &out {
            match cmd {
                Cmd::SMove(l) => assert!(l.0.is_long_linear()),
                Cmd::LMove(a, b) => assert!(a.0.is_short_linear() && b.0.is_short_linear()),
                _ => panic!("no move"),
            }
        }
    }
}

#[test]
fn the_smallest_grid() {
    let mut sys = System::new(&model_of(ModelId::Assemble(None), 1, &[]));
    assert!(sys.can_current_bot_fisson().is_none());
    assert_eq!(sys.move_to(Cord::new(0, 0, 0), Cord::new(0, 0, 0)).cmds.len(), 0);
    assert_eq!(sys.execute_cmd(smove(1, 0, 0)), CmdResult::Interfared);
    assert_eq!(sys.execute_cmd(Cmd::Halt), CmdResult::Halt);
    assert_eq!(sys.energy, 3 + 20);
}
