use hex_factory::engine::cell::{CellCoord, FractionalHex, Hex};

#[test]
fn coord_keeps_its_components() {
    let c = CellCoord::new(2, -3, 1);
    assert_eq!((c.x, c.y, c.z), (2, -3, 1));
    assert_eq!(c, CellCoord { x: 2, y: -3, z: 1 });
}

#[test]
fn coords_are_ordered_by_x_then_y_then_z() {
    assert!(CellCoord::new(0, 5, -5) < CellCoord::new(1, -1, 0));
    assert!(CellCoord::new(1, -1, 0) < CellCoord::new(1, 0, -1));
    assert!(CellCoord::new(1, 0, -1) < CellCoord::new(1, 0, 0));
}

#[test]
fn length_is_the_number_of_steps_from_the_origin() {
    assert_eq!(Hex::new(0, 0, 0).length(), 0);
    assert_eq!(Hex::new(1, -1, 0).length(), 1);
    assert_eq!(Hex::new(3, -1, -2).length(), 3);
    assert_eq!(Hex::new(-4, 2, 2).length(), 4);
}

#[test]
fn distance_is_symmetric_and_zero_to_itself() {
    let a = Hex::new(2, -5, 3);
    let b = Hex::new(-1, 1, 0);
    assert_eq!(a.distance(&b), 6);
    assert_eq!(b.distance(&a), 6);
    assert_eq!(a.distance(&a), 0);
}

#[test]
fn directions_are_the_six_unit_steps_in_order() {
    let origin = Hex::new(0, 0, 0);
    let expected = [(1, 0, -1), (1, -1, 0), (0, -1, 1), (-1, 0, 1), (-1, 1, 0), (0, 1, -1)];
    assert_eq!(origin.directions(), vec![0, 1, 2, 3, 4, 5]);
    for (d, (q, r, s)) in expected.iter().enumerate() {
        assert_eq!(origin.direction(d as i32), Hex { q: *q, r: *r, s: *s });
    }
}

#[test]
fn neighbors_come_in_direction_order() {
    let c = Hex::new(2, -3, 1);
    let around = c.neighbors();
    assert_eq!(around.len(), 6);
    assert_eq!(around[0], Hex::new(3, -3, 0));
    assert_eq!(around[1], Hex::new(3, -4, 1));
    assert_eq!(around[2], Hex::new(2, -4, 2));
    assert_eq!(around[3], Hex::new(1, -3, 2));
    assert_eq!(around[4], Hex::new(1, -2, 1));
    assert_eq!(around[5], Hex::new(2, -2, 0));
    for d in 0..6 {
        assert_eq!(around[d as usize], c.neighbor(d));
    }
}

#[test]
fn opposite_step_leads_back() {
    let c = Hex::new(-7, 3, 4);
    for d in 0..6 {
        let back = c.opposite_direction(d);
        assert_eq!(back, (d + 3) % 6);
        assert_eq!(c.neighbor(d).neighbor(back), c);
    }
}

#[test]
fn sum_difference_and_product_work_by_coordinate() {
    let a = Hex::new(1, 2, -3);
    let b = Hex::new(4, -4, 0);
    assert_eq!(a + b, Hex::new(5, -2, -3));
    assert_eq!(a - b, Hex::new(-3, 6, -3));
    assert_eq!(Hex::new(1, 1, -2) * Hex::new(2, 2, 2), Hex::new(2, 2, -4));
}

#[test]
fn coord_of_a_cell_has_its_coordinates() {
    assert_eq!(Hex::new(5, -2, -3).coord(), CellCoord::new(5, -2, -3));
}

#[test]
fn lerp_weighs_the_two_cells() {
    let a = Hex::new(0, 0, 0);
    let b = Hex::new(4, -4, 0);
    let f = a.lerp(&b, 1, 4);
    assert_eq!((f.q, f.r, f.s, f.den), (4, -4, 0, 4));
    let g = b.lerp(&a, 1, 3);
    assert_eq!((g.q, g.r, g.s, g.den), (8, -8, 0, 3));
}

#[test]
fn round_of_a_cell_is_the_cell() {
    for (q, r, s) in [(0, 0, 0), (3, -5, 2), (-1, -1, 2), (7, 0, -7)] {
        for den in [1i64, 2, 3, 10] {
            let d = den as i128;
            let f = FractionalHex::new(q as i128 * d, r as i128 * d, s as i128 * d, den);
            assert_eq!(f.round(), Hex::new(q, r, s));
        }
    }
}

#[test]
fn round_goes_to_the_nearest_cell() {
    // (0.4, -0.3, -0.1) is nearest to the origin.
    assert_eq!(FractionalHex::new(4, -3, -1, 10).round(), Hex::new(0, 0, 0));
    // (0.6, -0.5, -0.1): q and r both round away, r moved farther and is corrected.
    assert_eq!(FractionalHex::new(6, -5, -1, 10).round(), Hex::new(1, -1, 0));
    // (0.7, 0.1, -0.8) rounds to (1, 0, -1) with nothing to correct.
    assert_eq!(FractionalHex::new(7, 1, -8, 10).round(), Hex::new(1, 0, -1));
    // (2.5, -1.25, -1.25): q moved farthest and is corrected.
    assert_eq!(FractionalHex::new(10, -5, -5, 4).round(), Hex::new(2, -1, -1));
}

#[test]
fn round_breaks_ties_by_the_fixed_order() {
    // (0.5, -0.5, 0): q and r moved equally far, so r is the one corrected.
    assert_eq!(FractionalHex::new(1, -1, 0, 2).round(), Hex::new(1, -1, 0));
    // (0.5, 0, -0.5): q and s moved equally far, so s is the one corrected.
    assert_eq!(FractionalHex::new(1, 0, -1, 2).round(), Hex::new(1, 0, -1));
    // (0, 0.5, -0.5): r and s moved equally far, so s is the one corrected.
    assert_eq!(FractionalHex::new(0, 1, -1, 2).round(), Hex::new(0, 1, -1));
    // (-0.5, 0.5, 0): halves round away from zero.
    assert_eq!(FractionalHex::new(-1, 1, 0, 2).round(), Hex::new(-1, 1, 0));
}

#[test]
fn line_holds_both_ends_and_one_cell_per_step() {
    let a = Hex::new(0, 0, 0);
    let b = Hex::new(3, -3, 0);
    assert_eq!(
        a.linedraw(&b),
        vec![Hex::new(0, 0, 0), Hex::new(1, -1, 0), Hex::new(2, -2, 0), Hex::new(3, -3, 0)]
    );
    let c = Hex::new(-2, 5, -3);
    let d = Hex::new(4, -1, -3);
    let line = c.linedraw(&d);
    assert_eq!(line.len() as i32, c.distance(&d) + 1);
    assert_eq!(line[0], c);
    assert_eq!(line[line.len() - 1], d);
    for pair in line.windows(2) {
        assert_eq!(pair[0].distance(&pair[1]), 1);
    }
}

#[test]
fn line_from_a_cell_to_itself_is_that_cell() {
    let a = Hex::new(2, -1, -1);
    assert_eq!(a.linedraw(&a), vec![a]);
}

#[test]
fn line_across_a_corner_takes_the_rounded_cells() {
    let a = Hex::new(0, 0, 0);
    let b = Hex::new(1, 1, -2);
    assert_eq!(a.linedraw(&b), vec![Hex::new(0, 0, 0), Hex::new(1, 0, -1), Hex::new(1, 1, -2)]);
}

#[test]
fn turns_go_round_the_origin() {
    let c = Hex::new(3, -1, -2);
    assert_eq!(c.rotate_left(), Hex::new(2, -3, 1));
    assert_eq!(c.rotate_right(), Hex::new(1, 2, -3));
    assert_eq!(c.rotate_left().rotate_right(), c);
    let mut turned = c;
    for _ in 0..6 {
        assert_eq!(turned.length(), 3);
        turned = turned.rotate_left();
    }
    assert_eq!(turned, c);
}

#[test]
fn no_cell_where_the_coordinates_do_not_sum_to_zero() {
    assert_eq!(Hex::try_new(0, 0, 1), None);
    assert_eq!(Hex::try_new(1, 1, 1), None);
    assert_eq!(Hex::try_new(i32::MAX, i32::MAX, 2), None);
    assert_eq!(Hex::try_new(i32::MIN, i32::MIN, 0), None);
    assert_eq!(Hex::try_new(0, 0, 0), Some(Hex::new(0, 0, 0)));
    assert_eq!(Hex::try_new(2, -3, 1), Some(Hex { q: 2, r: -3, s: 1 }));
    let cell = Hex::try_new(-5, 7, -2).expect("a cell");
    assert_eq!(cell.q + cell.r + cell.s, 0);
    let at = cell.coord();
    assert_eq!(at.x + at.y + at.z, 0);
    for next in cell.neighbors() {
        assert_eq!(next.q + next.r + next.s, 0);
    }
}
