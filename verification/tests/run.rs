use icfp2018::ai::{Ai, Many, PlanError};
use icfp2018::bot::Cmd;
use icfp2018::geometry::{Cord, CordDiff, LongLinear, Near, ShortLinear};
use icfp2018::model::{Model, ModelId};
use icfp2018::run::{is_best, solve, RunResult};
use icfp2018::error::NanoBotError;
use icfp2018::system::{CmdResult, System};
use icfp2018::trace::Trace;

fn model_of(id: ModelId, r: u8, full: &[(i32, i32, i32)]) -> Model {
    let side = r as usize;
    let mut data = vec![0u8; 1 + (side * side * side + 7) / 8];
    data[0] = r;
    for &(x, y, z) in full {
        let index = Cord::new(x, y, z).to_linear_index(side);
        data[1 + index / 8] |= 1 << (index % 8);
    }
    Model::read(id, &data).unwrap()
}

fn decode_linear(axis: u8, value: i32) -> CordDiff {
    match axis {
        1 => CordDiff::new(value, 0, 0),
        2 => CordDiff::new(0, value, 0),
        3 => CordDiff::new(0, 0, value),
        _ => panic!("no axis {}", axis),
    }
}

fn decode_near(n: u8) -> Near {
    let n = n as i32;
    Near(CordDiff::new(n / 9 - 1, n / 3 % 3 - 1, n % 3 - 1))
}

/// Reads a trace file back, by the table of encodings.
fn decode(bytes: &[u8]) -> Vec<Cmd> {
    let mut cmds = Vec::new();
    let mut k = 0;
    while k < bytes.len() {
        let b = bytes[k];
        k += 1;
        let cmd = if b == 0xff {
            Cmd::Halt
        } else if b == 0xfe {
            Cmd::Wait
        } else if b == 0xfd {
            Cmd::Flip
        } else if b & 0x0f == 0x04 {
            let i = bytes[k] as i32;
            k += 1;
            Cmd::SMove(LongLinear(decode_linear((b >> 4) & 3, i - 15)))
        } else if b & 0x0f == 0x0c {
            let second = bytes[k];
            k += 1;
            Cmd::LMove(
                ShortLinear(decode_linear((b >> 4) & 3, (second & 0x0f) as i32 - 5)),
                ShortLinear(decode_linear((b >> 6) & 3, (second >> 4) as i32 - 5)),
            )
        } else {
            let nd = decode_near(b >> 3);
            match b & 7 {
                5 => {
                    let m = bytes[k] as usize;
                    k += 1;
                    Cmd::Fission(nd, m)
                }
                3 => Cmd::Fill(nd),
                2 => Cmd::Void(nd),
                7 => Cmd::FusionP(nd),
                6 => Cmd::FusionS(nd),
                _ => panic!("no command {}", b),
            }
        };
        cmds.push(cmd);
    }
    cmds
}

/// A plain simulator of its own, for traces that are in order: it knows the prices and
/// the effects of the commands, and nothing of interference.
fn replay(model: &Model, cmds: &[Cmd]) -> (i64, Vec<bool>) {
    let r = model.r as i64;
    let mut full = vec![false; model.r * model.r * model.r];
    if let ModelId::Disassemble(_) = model.id {
        for c in &model.targets {
            full[c.to_linear_index(model.r)] = true;
        }
    }
    let mut energy: i64 = 0;
    let mut high = false;
    // Each bot: identity, place.
    let mut bots: Vec<(u64, Cord, Vec<u64>)> = vec![(1, Cord::new(0, 0, 0), (2..=40).collect())];
    let mut k = 0;
    while k < cmds.len() {
        energy += (if high { 30 } else { 3 }) * r * r * r + 20 * bots.len() as i64;
        let mut next = bots.clone();
        let mut gone: Vec<u64> = Vec::new();
        let mut flip = false;
        for i in 0..bots.len() {
            let (_, pos, seeds) = bots[i].clone();
            match cmds[k] {
                Cmd::Halt | Cmd::Wait | Cmd::FusionS(_) => {}
                Cmd::Flip => flip = !flip,
                Cmd::SMove(l) => {
                    energy += 2 * l.0.mlen() as i64;
                    next[i].1 = pos + l.0;
                }
                Cmd::LMove(a, b) => {
                    energy += 2 * (a.0.mlen() + 2 + b.0.mlen()) as i64;
                    next[i].1 = pos + a.0 + b.0;
                }
                Cmd::Fission(nd, m) => {
                    energy += 24;
                    next.push((seeds[0], pos + nd.0, seeds[1..m + 1].to_vec()));
                    next[i].2 = seeds[m + 1..].to_vec();
                }
                Cmd::Fill(nd) => {
                    let at = (pos + nd.0).to_linear_index(model.r);
                    energy += if full[at] { 6 } else { 12 };
                    full[at] = true;
                }
                Cmd::Void(nd) => {
                    let at = (pos + nd.0).to_linear_index(model.r);
                    energy += if full[at] { -12 } else { 3 };
                    full[at] = false;
                }
                Cmd::FusionP(nd) => {
                    energy -= 24;
                    let other = bots.iter().find(|b| b.1 == pos + nd.0).unwrap().clone();
                    next[i].2.push(other.0);
                    next[i].2.extend(other.2);
                    next[i].2.sort();
                    gone.push(other.0);
                }
            }
            k += 1;
        }
        if flip {
            high = !high;
        }
        next.retain(|b| !gone.contains(&b.0));
        next.sort_by_key(|b| b.0);
        bots = next;
    }
    (energy, full)
}

fn check_run(model: &Model, bots: usize) -> RunResult {
    let run = solve(model, Ai::Many(bots)).ok().unwrap();
    let energy = run.energy.unwrap();
    let trace = run.trace();
    assert_eq!(trace.cmds.len(), run.system.records.len());
    // Halt is the last command and no other.
    for (i, cmd) in trace.cmds.iter().enumerate() {
        assert_eq!(matches!(cmd, Cmd::Halt), i + 1 == trace.cmds.len());
    }
    // The trace file, read back and replayed, gives the same energy and matrix.
    let bytes = trace.encode();
    let back = decode(&bytes);
    assert_eq!(back.len(), trace.cmds.len());
    for (a, b) in back.iter().zip(&trace.cmds) {
        assert_eq!(a.encode(), b.encode());
    }
    let (replayed, full) = replay(model, &back);
    assert_eq!(replayed, energy);
    assert_eq!(full, run.system.matrix.full);
    // The simulator, given the trace that was read back, ends in the same state.
    let mut again = System::new(model);
    assert!(again.simulate(Trace { cmds: back.clone() }).is_ok());
    assert_eq!(again.energy, energy);
    assert_eq!(again.matrix.full, run.system.matrix.full);
    assert_eq!(again.records.len(), trace.cmds.len());
    // Between two steps the bots hold the forty identities, each once.
    let mut sys = System::new(model);
    for cmd in &back {
        if sys.bot_index == 0 {
            let mut ids: Vec<u64> = Vec::new();
            for bot in &sys.bots {
                ids.push(bot.bid);
                ids.extend(bot.seeds.iter());
            }
            ids.sort();
            assert_eq!(ids, (1..=40).collect::<Vec<u64>>());
            for pair in sys.bots.windows(2) {
                assert!(pair[0].bid < pair[1].bid);
                assert!(pair[0].pos != pair[1].pos);
            }
        }
        // No bot stands where a voxel is filled or voided.
        match cmd {
            Cmd::Fill(nd) | Cmd::Void(nd) => {
                let target = sys.current_bot().pos + nd.0;
                assert!(sys.bots.iter().all(|bot| bot.pos != target));
            }
            _ => {}
        }
        assert!(sys.admits_cmd(*cmd));
        sys.execute_cmd(*cmd);
    }
    // The work is done.
    assert!(run.system.priority_targets.is_empty());
    assert_eq!(run.system.bots.len(), 0);
    for x in 0..model.r as i32 {
        for y in 0..model.r as i32 {
            for z in 0..model.r as i32 {
                let c = Cord::new(x, y, z);
                let want = matches!(model.id, ModelId::Assemble(_)) && model.has_target(c);
                assert_eq!(run.system.matrix.is_full(c), want);
            }
        }
    }
    run
}

#[test]
fn nothing_to_do_is_a_halt() {
    let model = model_of(ModelId::Assemble(None), 3, &[]);
    let run = solve(&model, Ai::Many(1)).ok().unwrap();
    let trace = run.trace();
    assert_eq!(trace.cmds.len(), 1);
    assert!(matches!(trace.cmds[0], Cmd::Halt));
    assert_eq!(trace.encode(), vec![0xff]);
    // The step in which the bot halts is paid for.
    assert_eq!(run.energy, Some(3 * 27 + 20));
    assert_eq!(run.model_name(), "Assemple(None)");
}

#[test]
fn nothing_to_do_with_two_bots_asked_for() {
    let model = model_of(ModelId::Disassemble(Some(3)), 2, &[]);
    let run = check_run(&model, 2);
    assert_eq!(run.trace().cmds.len(), 1);
    assert_eq!(run.energy, Some(3 * 8 + 20));
    assert_eq!(run.model_name(), "FD003");
}

#[test]
fn one_voxel_with_one_bot() {
    let model = model_of(ModelId::Assemble(Some(1)), 3, &[(1, 0, 0)]);
    let run = check_run(&model, 1);
    // Fill from the origin, then halt.
    let trace = run.trace();
    assert_eq!(trace.encode(), vec![0b_10110_011, 0xff]);
    assert_eq!(run.energy, Some(12 + 2 * (3 * 27 + 20)));
}

#[test]
fn one_voxel_taken_apart() {
    let model = model_of(ModelId::Disassemble(Some(1)), 3, &[(1, 0, 0)]);
    let run = check_run(&model, 1);
    assert_eq!(run.trace().encode(), vec![0b_10110_010, 0xff]);
    assert_eq!(run.energy, Some(-12 + 2 * (3 * 27 + 20)));
}

#[test]
fn a_tower_with_one_bot() {
    let tower = [(2, 0, 2), (2, 1, 2), (2, 2, 2), (2, 3, 2)];
    check_run(&model_of(ModelId::Assemble(Some(2)), 6, &tower), 1);
    check_run(&model_of(ModelId::Disassemble(Some(2)), 6, &tower), 1);
}

#[test]
fn a_slab_with_two_and_with_four_bots() {
    let mut slab = Vec::new();
    for x in 1..5 {
        for z in 1..5 {
            slab.push((x, 0, z));
            if (x + z) % 2 == 0 {
                slab.push((x, 1, z));
            }
        }
    }
    for bots in [2, 4] {
        let built = check_run(&model_of(ModelId::Assemble(Some(3)), 7, &slab), bots);
        assert!(built.trace().cmds.iter().any(|c| matches!(c, Cmd::Fission(_, _))));
        assert!(built.trace().cmds.iter().any(|c| matches!(c, Cmd::FusionP(_))));
        assert!(built.trace().cmds.iter().any(|c| matches!(c, Cmd::FusionS(_))));
        check_run(&model_of(ModelId::Disassemble(Some(3)), 7, &slab), bots);
    }
}

#[test]
fn a_stepped_block_in_a_grid_of_side_twenty() {
    // Layers of 10 x 10, 8 x 8, .., 2 x 2 on each other: 220 voxels.
    let mut block = Vec::new();
    for y in 0..5 {
        for x in (5 + y)..(15 - y) {
            for z in (5 + y)..(15 - y) {
                block.push((x, y, z));
            }
        }
    }
    assert_eq!(block.len(), 220);
    let built = check_run(&model_of(ModelId::Assemble(Some(4)), 20, &block), 2);
    let fills = built.trace().cmds.iter().filter(|c| matches!(c, Cmd::Fill(_))).count();
    assert_eq!(fills, 220);
    let cleared = check_run(&model_of(ModelId::Disassemble(Some(4)), 20, &block), 3);
    let voids = cleared.trace().cmds.iter().filter(|c| matches!(c, Cmd::Void(_))).count();
    assert_eq!(voids, 220);
}

#[test]
fn the_planner_on_a_system_of_ones_own() {
    let model = model_of(ModelId::Assemble(None), 4, &[(3, 0, 3), (3, 1, 3)]);
    let mut sys = System::new(&model);
    let mut planner = Many::new(3);
    assert!(planner.solve(&mut sys).is_ok());
    assert_eq!(sys.bots.len(), 0);
    assert!(matches!(sys.records.last(), Some(Cmd::Halt)));
    assert!(sys.matrix.is_full(Cord::new(3, 0, 3)));
    assert!(sys.matrix.is_full(Cord::new(3, 1, 3)));
}

#[test]
fn a_target_that_cannot_be_reached_stalls_the_plan() {
    // The target at the corner is shut in by voxels that are not to be filled: there is no
    // voxel next to it that a bot can stand on. Taken apart, the same holds.
    let model = model_of(ModelId::Disassemble(None), 3, &[(2, 0, 2)]);
    let mut sys = System::new(&model);
    for c in [(1, 0, 1), (1, 0, 2), (2, 0, 1), (1, 1, 1), (1, 1, 2), (2, 1, 1), (2, 1, 2)] {
        sys.matrix.fill(Cord::new(c.0, c.1, c.2));
    }
    let mut planner = Many::new(1);
    let res = planner.solve(&mut sys);
    assert_eq!(res, Err(PlanError::Stall));
    // Nine waits were carried out; the tenth was not.
    assert_eq!(sys.records.len(), 9);
    assert!(sys.records.iter().all(|c| matches!(c, Cmd::Wait)));
    assert_eq!(sys.energy, 9 * (3 * 27 + 20));
}

#[test]
fn a_bot_that_is_shut_out_finds_no_way_home() {
    let model = model_of(ModelId::Assemble(None), 3, &[]);
    let mut sys = System::new(&model);
    // The bot goes to the far corner, and the origin is walled in behind it.
    let far = Cmd::LMove(ShortLinear(CordDiff::new(2, 0, 0)), ShortLinear(CordDiff::new(0, 0, 2)));
    sys.execute_cmd(far);
    for c in [(1, 0, 0), (0, 1, 0), (0, 0, 1)] {
        sys.matrix.fill(Cord::new(c.0, c.1, c.2));
    }
    let mut planner = Many::new(1);
    assert_eq!(planner.solve(&mut sys), Err(PlanError::NoWayHome));
    assert_eq!(sys.records.len(), 1);
}

#[test]
fn a_given_up_plan_has_no_energy() {
    // A solid cube that is to be taken apart shuts the bot in at the origin: it cannot
    // move, and no voxel of the top layer, which is to go first, is near it.
    let mut cube = Vec::new();
    for x in 0..3 {
        for y in 0..3 {
            for z in 0..3 {
                cube.push((x, y, z));
            }
        }
    }
    let model = model_of(ModelId::Disassemble(Some(9)), 3, &cube);
    let run = solve(&model, Ai::Many(1)).ok().unwrap();
    assert_eq!(run.energy, None);
    assert_eq!(run.model_name(), "FD009");
    let trace = run.trace();
    assert_eq!(trace.cmds.len(), 9);
    assert!(trace.cmds.iter().all(|c| matches!(c, Cmd::Wait)));
    assert_eq!(run.system.energy, 9 * (3 * 27 + 20));
    assert_eq!(run.system.bots.len(), 1);
    // With a second bot asked for it is the same: there is no room to split.
    let run = solve(&model, Ai::Many(2)).ok().unwrap();
    assert_eq!(run.energy, None);
}

#[test]
fn a_replay_stops_where_the_state_cannot_go_on() {
    let model = model_of(ModelId::Assemble(None), 3, &[]);
    let east = Cmd::SMove(LongLinear(CordDiff::new(2, 0, 0)));
    // A trace without a halt is carried out and refused.
    let mut sys = System::new(&model);
    assert_eq!(sys.simulate(Trace { cmds: vec![east, Cmd::Wait] }), Err(NanoBotError));
    assert_eq!(sys.records.len(), 2);
    assert_eq!(sys.energy, 4 + 2 * (3 * 27 + 20));
    // A command that interferes stops the replay.
    let mut sys = System::new(&model);
    assert_eq!(sys.simulate(Trace { cmds: vec![east, east, Cmd::Halt] }), Err(NanoBotError));
    assert_eq!(sys.records.len(), 1);
    // So does a halt away from the origin, which the state does not admit.
    let mut sys = System::new(&model);
    assert!(!sys.admits_cmd(Cmd::FusionS(Near(CordDiff::new(1, 0, 0)))));
    assert!(!sys.admits_cmd(Cmd::FusionP(Near(CordDiff::new(1, 0, 0)))));
    assert!(!sys.admits_cmd(Cmd::Fission(Near(CordDiff::new(1, 0, 0)), 39)));
    assert!(sys.admits_cmd(Cmd::Fission(Near(CordDiff::new(1, 0, 0)), 38)));
    assert!(!sys.admits_cmd(Cmd::Fill(Near(CordDiff::new(1, 1, 1)))));
    assert!(!sys.admits_cmd(Cmd::SMove(LongLinear(CordDiff::new(16, 0, 0)))));
    assert!(sys.admits_cmd(Cmd::Halt));
    assert_eq!(sys.simulate(Trace { cmds: vec![east, Cmd::Halt] }), Err(NanoBotError));
    assert_eq!(sys.records.len(), 1);
    assert!(!sys.admits_cmd(Cmd::Halt));
    // What follows the halt is not looked at.
    let mut sys = System::new(&model);
    assert_eq!(sys.simulate(Trace { cmds: vec![Cmd::Wait, Cmd::Halt, east] }), Ok(()));
    assert_eq!(sys.records.len(), 2);
    assert_eq!(sys.bots.len(), 0);
    assert_eq!(sys.simulate(Trace { cmds: vec![Cmd::Wait] }), Err(NanoBotError));
    assert!(CmdResult::Halt != CmdResult::Continue);
}

#[test]
fn better_scores() {
    assert!(is_best(None, 5));
    assert!(is_best(Some(6), 5));
    assert!(!is_best(Some(5), 5));
    assert!(!is_best(Some(4), 5));
    assert!(is_best(Some(-4), -5));
}

#[test]
fn a_trace_is_the_bytes_of_its_commands() {
    let trace = Trace {
        cmds: vec![
            Cmd::Fission(Near(CordDiff::new(0, 0, 1)), 5),
            Cmd::Wait,
            Cmd::SMove(LongLinear(CordDiff::new(12, 0, 0))),
            Cmd::Halt,
        ],
    };
    assert_eq!(
        trace.encode(),
        vec![0b_01110101, 0b_00000101, 0b_11111110, 0b_00010100, 0b_00011011, 0b_11111111]
    );
    assert_eq!(decode(&trace.encode()).len(), 4);
    assert_eq!(Trace { cmds: vec![] }.encode(), Vec::<u8>::new());
}

#[test]
fn a_run_on_a_model_made_from_targets() {
    let targets = vec![Cord::new(2, 0, 2), Cord::new(2, 1, 2), Cord::new(3, 0, 2)];
    let model = Model::from_targets(ModelId::Assemble(Some(7)), 5, &targets);
    let run = check_run(&model, 2);
    assert_eq!(run.model_name(), "FA007");
    for t in &targets {
        assert!(run.system.matrix.is_full(*t));
    }
    assert_eq!(run.system.harmonics, icfp2018::system::Harmonics::Low);
}
