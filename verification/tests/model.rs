use icfp2018::geometry::Cord;
use icfp2018::matrix::Matrix;
use icfp2018::model::{Model, ModelError, ModelId};

fn file_of(r: u8, full: &[(i32, i32, i32)]) -> Vec<u8> {
    let side = r as usize;
    let mut data = vec![0u8; 1 + (side * side * side + 7) / 8];
    data[0] = r;
    for &(x, y, z) in full {
        let index = Cord::new(x, y, z).to_linear_index(side);
        data[1 + index / 8] |= 1 << (index % 8);
    }
    data
}

#[test]
fn model_test() {
    // A model of side 20 with 511 full voxels: those with the linear indices 0 to 510.
    let mut data = vec![0u8; 1 + 20 * 20 * 20 / 8];
    data[0] = 20;
    for k in 0..63 {
        data[1 + k] = 0xff;
    }
    data[1 + 63] = 0x7f;
    let model = Model::read(ModelId::Assemble(Some(1)), &data).unwrap();
    assert_eq!(model.r, 20);
    assert_eq!(model.bytes.len(), 20 * 20 * 20 / 8);
    assert_eq!(
        model
            .bytes
            .iter()
            .map(|byte| byte.count_ones())
            .sum::<u32>(),
        511
    );
    assert_eq!(model.targets.len(), 511);
}

#[test]
fn targets_are_the_set_bits_in_scan_order() {
    let data = file_of(3, &[(2, 0, 1), (0, 1, 2), (1, 0, 0), (0, 0, 0)]);
    let model = Model::read(ModelId::Disassemble(None), &data).unwrap();
    assert_eq!(model.r, 3);
    assert_eq!(model.bytes, data[1..].to_vec());
    assert_eq!(
        model.targets,
        vec![Cord::new(0, 0, 0), Cord::new(0, 1, 2), Cord::new(1, 0, 0), Cord::new(2, 0, 1)]
    );
    assert!(model.has_target(Cord::new(0, 1, 2)));
    assert!(!model.has_target(Cord::new(0, 1, 1)));
    assert!(!model.has_target(Cord::new(3, 0, 0)));
    assert!(!model.has_target(Cord::new(0, -1, 0)));
}

#[test]
fn bit_order_within_a_byte() {
    // Side 2: index = 4x + 2y + z, bit k of the one byte is voxel k.
    let model = Model::read(ModelId::Assemble(None), &[2, 0b_0010_0001]).unwrap();
    assert_eq!(model.targets, vec![Cord::new(0, 0, 0), Cord::new(1, 0, 1)]);
}

#[test]
fn a_file_without_the_first_byte_is_refused() {
    assert!(matches!(Model::read(ModelId::Assemble(None), &[]), Err(ModelError::Empty)));
}

#[test]
fn a_file_with_too_few_bits_is_refused() {
    // Side 3 has 27 voxels and needs four bytes.
    assert!(matches!(
        Model::read(ModelId::Assemble(None), &[3, 0, 0, 0]),
        Err(ModelError::Truncated)
    ));
    assert!(Model::read(ModelId::Assemble(None), &[3, 0, 0, 0, 0]).is_ok());
    assert!(Model::read(ModelId::Assemble(None), &[0]).is_ok());
}

#[test]
fn names_of_models() {
    assert_eq!(ModelId::Assemble(Some(1)).name(), "FA001");
    assert_eq!(ModelId::Assemble(Some(42)).name(), "FA042");
    assert_eq!(ModelId::Disassemble(Some(186)).name(), "FD186");
    assert_eq!(ModelId::Disassemble(Some(1234)).name(), "FD1234");
    assert_eq!(ModelId::Assemble(Some(0)).name(), "FA000");
    assert_eq!(ModelId::Assemble(None).name(), "Assemple(None)");
    assert_eq!(ModelId::Disassemble(None).name(), "Disassemple(Unknown)");
    assert_eq!(ModelId::Assemble(Some(7)).filename(), "FA007_tgt.mdl");
    assert_eq!(ModelId::Disassemble(Some(70)).filename(), "FD070_src.mdl");
}

#[test]
fn matrix_starts_void_or_full() {
    let data = file_of(3, &[(1, 0, 1), (1, 1, 1)]);
    let to_build = Model::read(ModelId::Assemble(Some(1)), &data).unwrap();
    let to_clear = Model::read(ModelId::Disassemble(Some(1)), &data).unwrap();
    let mut void = Matrix::new(&to_build);
    let mut full = Matrix::new(&to_clear);
    assert_eq!(void.r, 3);
    assert_eq!(void.full, vec![false; 27]);
    assert_eq!(full.full.iter().filter(|b| **b).count(), 2);
    assert!(full.is_full(Cord::new(1, 0, 1)));
    assert!(full.is_full(Cord::new(1, 1, 1)));
    assert!(!full.is_full(Cord::new(0, 0, 0)));
    void.fill(Cord::new(2, 2, 2));
    assert!(void.is_full(Cord::new(2, 2, 2)));
    assert_eq!(void.full.iter().filter(|b| **b).count(), 1);
    assert!(void.full[26]);
    full.void(Cord::new(1, 0, 1));
    assert!(!full.is_full(Cord::new(1, 0, 1)));
    assert!(full.is_full(Cord::new(1, 1, 1)));
}

#[test]
fn a_missing_value_is_an_error() {
    use_ok_or_err();
}

fn use_ok_or_err() {
    let some: Option<u8> = Some(3);
    let none: Option<u8> = None;
    assert_eq!(icfp2018::error::OkOrErr::ok_or_err(some), Ok(3));
    assert_eq!(icfp2018::error::OkOrErr::ok_or_err(none), Err(icfp2018::error::MyNoneError));
}

#[test]
fn a_model_from_its_targets() {
    let targets = vec![Cord::new(2, 0, 1), Cord::new(0, 1, 2), Cord::new(1, 0, 0), Cord::new(0, 0, 0)];
    let made = Model::from_targets(ModelId::Disassemble(Some(5)), 3, &targets);
    let read = Model::read(ModelId::Disassemble(Some(5)), &file_of(3, &[(2, 0, 1), (0, 1, 2), (1, 0, 0), (0, 0, 0)]))
        .unwrap();
    assert_eq!(made.r, 3);
    assert_eq!(made.bytes.len(), 4);
    assert_eq!(made.bytes, read.bytes);
    assert_eq!(made.targets, read.targets);
    assert_eq!(
        made.targets,
        vec![Cord::new(0, 0, 0), Cord::new(0, 1, 2), Cord::new(1, 0, 0), Cord::new(2, 0, 1)]
    );
    assert!(made.has_target(Cord::new(2, 0, 1)));
    assert!(!made.has_target(Cord::new(2, 0, 2)));
    // A target named twice is one voxel; no target is no voxel.
    let twice = Model::from_targets(ModelId::Assemble(None), 2, &vec![Cord::new(1, 0, 1), Cord::new(1, 0, 1)]);
    assert_eq!(twice.bytes, vec![0b_0010_0000]);
    assert_eq!(twice.targets, vec![Cord::new(1, 0, 1)]);
    let none = Model::from_targets(ModelId::Assemble(None), 20, &vec![]);
    assert_eq!(none.bytes, vec![0u8; 1000]);
    assert_eq!(none.targets.len(), 0);
    let empty = Model::from_targets(ModelId::Assemble(None), 0, &vec![]);
    assert_eq!(empty.bytes.len(), 0);
    // A matrix and a queue can be made of it.
    let matrix = Matrix::new(&made);
    assert!(matrix.is_full(Cord::new(0, 1, 2)));
    assert_eq!(matrix.full.iter().filter(|b| **b).count(), 4);
}
