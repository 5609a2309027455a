use icfp2018::geometry::{Cord, CordDiff, Region};

#[test]
fn cord_test() {
    let d000 = CordDiff::new(0, 0, 0);
    let d001 = CordDiff::new(0, 0, 1);
    let d011 = CordDiff::new(0, 1, 1);
    let d111 = CordDiff::new(1, 1, 1);
    let d123 = CordDiff::new(1, 2, 3);
    let d002 = CordDiff::new(0, 0, 2);
    let d009 = CordDiff::new(0, 0, 9);

    assert_eq!(d000.mlen(), 0);
    assert_eq!(d001.mlen(), 1);
    assert_eq!(d011.mlen(), 2);
    assert_eq!(d111.mlen(), 3);
    assert_eq!(d123.mlen(), 6);

    assert_eq!(d000.clen(), 0);
    assert_eq!(d001.clen(), 1);
    assert_eq!(d011.clen(), 1);
    assert_eq!(d111.clen(), 1);
    assert_eq!(d123.clen(), 3);

    assert!(!d000.is_linear());
    assert!(d001.is_linear());
    assert!(!d011.is_linear());

    assert!(d001.is_short_linear());
    assert!(!d009.is_short_linear());

    assert!(d001.is_long_linear());
    assert!(d009.is_long_linear());

    assert!(d001.is_near());
    assert!(d011.is_near());
    assert!(!d002.is_near());
    assert!(!d111.is_near());
    assert!(!d009.is_near());
}

#[test]
fn lengths_of_extreme_diffs() {
    let d = CordDiff::new(i32::MIN, i32::MAX, -1);
    assert_eq!(d.mlen(), 2147483648 + 2147483647 + 1);
    assert_eq!(d.clen(), 2147483648);
    assert!(!d.is_linear());
}

#[test]
fn cord_plus_diff_and_back() {
    let c = Cord::new(3, 4, 5);
    let d = CordDiff::new(-1, 0, 2);
    let e = c + d;
    assert_eq!(e, Cord::new(2, 4, 7));
    assert_eq!(e - c, d);
    assert!(Cord::new(0, 0, 0).is_origin());
    assert!(!e.is_origin());
}

#[test]
fn range_and_linear_index() {
    let c = Cord::new(1, 2, 3);
    assert!(c.is_in_range(4));
    assert!(!c.is_in_range(3));
    assert!(!Cord::new(-1, 0, 0).is_in_range(4));
    assert_eq!(c.to_linear_index(4), 16 + 8 + 3);
    assert_eq!(Cord::new(19, 19, 19).to_linear_index(20), 7999);
}

#[test]
fn unit_step_of_a_straight_diff() {
    assert_eq!(CordDiff::new(-7, 0, 0).direc(), CordDiff::new(-1, 0, 0));
    assert_eq!(CordDiff::new(0, 3, 0).direc(), CordDiff::new(0, 1, 0));
    assert_eq!(CordDiff::new(0, 0, -1).direc(), CordDiff::new(0, 0, -1));
}

#[test]
fn six_faces_and_eighteen_near() {
    let faces = CordDiff::gen_all_diff();
    assert_eq!(
        faces,
        vec![
            CordDiff::new(-1, 0, 0),
            CordDiff::new(0, -1, 0),
            CordDiff::new(0, 0, -1),
            CordDiff::new(0, 0, 1),
            CordDiff::new(0, 1, 0),
            CordDiff::new(1, 0, 0),
        ]
    );
    let near = CordDiff::gen_all_near_diff();
    assert_eq!(near.len(), 18);
    for d in &near {
        assert!(d.is_near());
    }
    assert_eq!(near[0], CordDiff::new(-1, -1, 0));
    assert_eq!(near[17], CordDiff::new(1, 1, 0));
    for i in 1..near.len() {
        let a = near[i - 1];
        let b = near[i];
        assert!((a.dx, a.dy, a.dz) < (b.dx, b.dy, b.dz));
    }
}

#[test]
fn region_lists_its_box_in_order() {
    let region = Region::new(Cord::new(2, 1, 0), Cord::new(1, 1, 1));
    assert_eq!(
        region.all_cords(),
        vec![Cord::new(1, 1, 0), Cord::new(1, 1, 1), Cord::new(2, 1, 0), Cord::new(2, 1, 1)]
    );
    assert_eq!(region, Region::new(Cord::new(1, 1, 1), Cord::new(2, 1, 0)));
    let point = Region::new(Cord::new(5, 5, 5), Cord::new(5, 5, 5));
    assert_eq!(point.all_cords(), vec![Cord::new(5, 5, 5)]);
    // As many coordinates as the product of the extents.
    let slab = Region::new(Cord::new(-1, 4, 7), Cord::new(2, 0, 5));
    assert_eq!(slab.all_cords().len(), 4 * 5 * 3);
}

#[test]
fn ninety_long_and_thirty_short_straight_diffs() {
    let long = CordDiff::gen_all_long_liner();
    assert_eq!(long.len(), 90);
    assert_eq!(long[0].0, CordDiff::new(-15, 0, 0));
    assert_eq!(long[1].0, CordDiff::new(0, -15, 0));
    assert_eq!(long[2].0, CordDiff::new(0, 0, -15));
    assert_eq!(long[42].0, CordDiff::new(-1, 0, 0));
    assert_eq!(long[45].0, CordDiff::new(1, 0, 0));
    assert_eq!(long[89].0, CordDiff::new(0, 0, 15));
    assert!(long.iter().all(|l| l.0.is_long_linear()));
    let short = CordDiff::gen_all_short_liner();
    assert_eq!(short.len(), 30);
    assert_eq!(short[0].0, CordDiff::new(-5, 0, 0));
    assert_eq!(short[14].0, CordDiff::new(0, 0, -1));
    assert_eq!(short[15].0, CordDiff::new(1, 0, 0));
    assert_eq!(short[29].0, CordDiff::new(0, 0, 5));
    assert!(short.iter().all(|s| s.0.is_short_linear()));
    for i in 0..30 {
        for j in 0..i {
            assert!(short[i].0 != short[j].0);
        }
    }
}
