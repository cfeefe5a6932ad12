use bedlam_cube::bitset::Bitset;
use bedlam_cube::coord::Coord;
use bedlam_cube::orientation::Orientation;

fn c(x: i64, y: i64, z: i64) -> Coord {
    Coord { x, y, z }
}

#[test]
fn coord_new_keeps_values() {
    assert_eq!(Coord::new(1, 2, 3), c(1, 2, 3));
}

#[test]
fn to_index_formula() {
    assert_eq!(c(1, 2, 3).to_index(c(4, 4, 4)), 57);
    assert_eq!(c(0, 0, 0).to_index(c(4, 4, 4)), 0);
    assert_eq!(c(3, 3, 3).to_index(c(4, 4, 4)), 63);
    assert_eq!(c(1, 2, 1).to_index(c(2, 3, 2)), 11);
}

#[test]
fn from_index_formula() {
    assert_eq!(Coord::from_index(57, c(4, 4, 4)), c(1, 2, 3));
    assert_eq!(Coord::from_index(11, c(2, 3, 2)), c(1, 2, 1));
    assert_eq!(Coord::from_index(0, c(1, 1, 1)), c(0, 0, 0));
}

#[test]
fn index_round_trip_over_cuboid() {
    let dim = c(2, 3, 4);
    for i in 0..24 {
        let p = Coord::from_index(i, dim);
        assert!(0 <= p.x && p.x < 2 && 0 <= p.y && p.y < 3 && 0 <= p.z && p.z < 4);
        assert_eq!(p.to_index(dim), i);
    }
}

#[test]
fn quarter_turns() {
    let mut p = c(1, 2, 3);
    p.rotate_x();
    assert_eq!(p, c(1, -3, 2));
    let mut p = c(1, 2, 3);
    p.rotate_y();
    assert_eq!(p, c(3, 2, -1));
    let mut p = c(1, 2, 3);
    p.rotate_z();
    assert_eq!(p, c(-2, 1, 3));
}

#[test]
fn four_quarter_turns_are_identity() {
    let mut p = c(1, 2, 3);
    for _ in 0..4 {
        p.rotate_x();
    }
    assert_eq!(p, c(1, 2, 3));
    for _ in 0..4 {
        p.rotate_y();
    }
    assert_eq!(p, c(1, 2, 3));
    for _ in 0..4 {
        p.rotate_z();
    }
    assert_eq!(p, c(1, 2, 3));
}

#[test]
fn bound_wraps_negative_coordinates() {
    let mut p = c(-1, 4, -5);
    p.bound(c(4, 4, 4));
    assert_eq!(p, c(3, 0, 3));
    let mut p = c(-1, 7, 2);
    p.bound(c(2, 3, 5));
    assert_eq!(p, c(1, 1, 2));
}

#[test]
fn normalise_to_board_wraps() {
    let mut o = Orientation(vec![c(-1, 0, 5), c(4, -4, 3)]);
    o.normalise_to_board(4);
    assert_eq!(o.0, vec![c(3, 0, 1), c(0, 0, 3)]);
}

#[test]
fn normalise_moves_to_origin() {
    let mut o = Orientation(vec![c(2, -1, 5), c(3, -1, 4), c(2, 0, 4)]);
    o.normalise();
    assert_eq!(o.0, vec![c(0, 0, 1), c(1, 0, 0), c(0, 1, 0)]);
}

#[test]
fn normalise_keeps_normalised() {
    let mut o = Orientation(vec![c(0, 1, 0), c(1, 0, 0), c(0, 0, 2)]);
    o.normalise();
    assert_eq!(o.0, vec![c(0, 1, 0), c(1, 0, 0), c(0, 0, 2)]);
}

#[test]
fn bounds_are_greatest_coordinates() {
    let o = Orientation(vec![c(0, 1, 0), c(1, 0, 0), c(0, 0, 2)]);
    assert_eq!(o.bounds(), c(1, 1, 2));
}

#[test]
fn fits_checks_every_cell() {
    let o = Orientation(vec![c(0, 0, 0), c(1, 0, 0)]);
    assert!(o.fits(c(2, 1, 1)));
    assert!(!o.fits(c(1, 2, 1)));
    assert!(!Orientation(vec![c(-1, 0, 0)]).fits(c(4, 4, 4)));
}

#[test]
fn shifted_moves_cells() {
    let o = Orientation(vec![c(0, 0, 0), c(1, 0, 0)]);
    assert_eq!(o.shifted(c(1, 2, 3)).0, vec![c(1, 2, 3), c(2, 2, 3)]);
}

#[test]
fn rotate_within_cube() {
    let dim = c(4, 4, 4);
    let mut o = Orientation(vec![c(1, 2, 3)]);
    let d = o.rotate_within(1, 0, 0, dim);
    assert_eq!(d, dim);
    assert_eq!(o.0, vec![c(1, 0, 2)]);
    let mut o = Orientation(vec![c(1, 2, 3)]);
    o.rotate_within(0, 1, 0, dim);
    assert_eq!(o.0, vec![c(3, 2, 2)]);
    let mut o = Orientation(vec![c(1, 2, 3)]);
    o.rotate_within(0, 0, 1, dim);
    assert_eq!(o.0, vec![c(1, 1, 3)]);
}

#[test]
fn rotate_within_turns_the_cuboid() {
    let dim = c(2, 3, 4);
    let mut o = Orientation(vec![c(1, 2, 3), c(0, 0, 0)]);
    let d = o.rotate_within(1, 0, 0, dim);
    assert_eq!(d, c(2, 4, 3));
    assert_eq!(o.0, vec![c(1, 0, 2), c(0, 3, 0)]);
    let mut o = Orientation(vec![c(1, 2, 3)]);
    let d = o.rotate_within(0, 0, 1, dim);
    assert_eq!(d, c(3, 2, 4));
    assert_eq!(o.0, vec![c(0, 1, 3)]);
}

#[test]
fn rotate_within_four_turns_is_identity() {
    let dim = c(2, 3, 4);
    let mut o = Orientation(vec![c(1, 2, 3), c(0, 1, 2)]);
    let d = o.rotate_within(4, 4, 4, dim);
    assert_eq!(d, dim);
    assert_eq!(o.0, vec![c(1, 2, 3), c(0, 1, 2)]);
}

#[test]
fn all_rotations_are_24_and_distinct_for_a_chiral_piece() {
    let dim = c(4, 4, 4);
    let o = Orientation(vec![c(0, 0, 0), c(1, 0, 0), c(2, 0, 0), c(0, 1, 0), c(0, 0, 1), c(0, 0, 2), c(0, 0, 3)]);
    let all = o.get_all_rotations(dim);
    assert_eq!(all.len(), 24);
    let masks: Vec<u64> = all.iter().map(|p| Bitset::from_orientation(p, dim).0).collect();
    for i in 0..24 {
        assert_eq!(masks[i].count_ones(), 7);
        for j in 0..i {
            assert_ne!(masks[i], masks[j]);
        }
    }
    assert_eq!(all[0].0, o.0);
}

#[test]
fn poses_give_the_turned_dimensions() {
    let dim = c(2, 2, 1);
    let o = Orientation(vec![c(0, 0, 0)]);
    let (poses, dims) = o.poses(dim);
    assert_eq!(poses.len(), 24);
    assert_eq!(dims.len(), 24);
    assert_eq!(dims[0], dim);
    assert_eq!(dims[1], c(1, 2, 2));
    assert_eq!(dims[3], c(2, 2, 1));
    assert_eq!(dims[6], c(2, 1, 2));
    let same = dims.iter().filter(|d| **d == dim).count();
    assert_eq!(same, 8);
}

#[test]
fn symmetry_images_of_a_domino() {
    let images = Orientation::symmetry_images(Bitset(0b0101), c(2, 2, 1));
    let got: Vec<Option<u64>> = images.iter().map(|i| i.map(|b| b.0)).collect();
    let mut want: Vec<Option<u64>> = vec![None; 24];
    for (k, v) in [(0, 5), (3, 3), (4, 10), (5, 12), (12, 5), (15, 3), (16, 10), (17, 12)] {
        want[k] = Some(v);
    }
    assert_eq!(got, want);
}

#[test]
fn symmetry_images_in_a_cube_keep_the_cell_count() {
    let images = Orientation::symmetry_images(Bitset(0b1011), c(3, 3, 3));
    assert_eq!(images.len(), 24);
    for i in images {
        assert_eq!(i.unwrap().0.count_ones(), 3);
    }
}

#[test]
fn rotate_about_origin() {
    let mut o = Orientation(vec![c(1, 2, 3)]);
    o.rotate(1, 0, 0);
    assert_eq!(o.0, vec![c(1, -3, 2)]);
    let mut o = Orientation(vec![c(1, 2, 3)]);
    o.rotate(1, 1, 1);
    // x turn: (1, -3, 2); y turn: (2, -3, -1); z turn: (3, 2, -1)
    assert_eq!(o.0, vec![c(3, 2, -1)]);
    let mut o = Orientation(vec![c(1, 2, 3), c(0, 0, 1)]);
    o.rotate(4, 8, 0);
    assert_eq!(o.0, vec![c(1, 2, 3), c(0, 0, 1)]);
}

#[test]
fn dimension_text() {
    assert_eq!(Coord::from_str("4x4x4"), Some(c(4, 4, 4)));
    assert_eq!(Coord::from_str("2x3x10"), Some(c(2, 3, 10)));
    assert_eq!(Coord::from_str("0x007x1"), Some(c(0, 7, 1)));
    assert_eq!(
        Coord::from_str("9223372036854775807x1x1"),
        Some(c(9223372036854775807, 1, 1))
    );
}

#[test]
fn dimension_text_malformed() {
    for s in [
        "", "4", "4x4", "4x4x", "x4x4", "4xx4", "4x4x4x4", "4x4x4 ", " 4x4x4", "4X4X4", "-4x4x4",
        "4x4x4x", "axbxc", "9223372036854775808x1x1", "1x1x99999999999999999999",
    ] {
        assert_eq!(Coord::from_str(s), None);
    }
}

#[test]
fn cell_list_text() {
    assert_eq!(Coord::from_str_list("000"), Some(vec![c(0, 0, 0)]));
    assert_eq!(
        Coord::from_str_list("000-100-012-939"),
        Some(vec![c(0, 0, 0), c(1, 0, 0), c(0, 1, 2), c(9, 3, 9)])
    );
}

#[test]
fn cell_list_text_malformed() {
    for s in ["", "00", "0000", "000-", "-000", "000-10", "000 100", "000-1a0", "000--100", "000-100-"] {
        assert_eq!(Coord::from_str_list(s), None);
    }
}

#[test]
fn mask_key_is_the_mask() {
    let o = Orientation(vec![c(0, 0, 0), c(1, 2, 3)]);
    assert_eq!(o.mask_key(c(4, 4, 4)), 1 | (1 << 57));
    assert_eq!(o.mask_key(c(4, 4, 4)), Bitset::from_orientation(&o, c(4, 4, 4)).0);
}
