use bedlam_cube::bitset::Bitset;
use bedlam_cube::coord::Coord;
use bedlam_cube::orientation::Orientation;
use bedlam_cube::piece::Piece;
use bedlam_cube::puzzle::{build_lookup, Arrangement, Puzzle};

fn c(x: i64, y: i64, z: i64) -> Coord {
    Coord { x, y, z }
}

fn piece(name: &str, cells: &[(i64, i64, i64)], dim: Coord) -> Piece {
    let base = Orientation(cells.iter().map(|&(x, y, z)| c(x, y, z)).collect());
    Piece::new(name.to_string(), name.to_string(), base, dim)
}

fn masks(p: &Piece) -> Vec<u64> {
    p.placements().iter().map(|b| b.0).collect()
}

#[test]
fn unit_cube_has_one_placement_per_cell() {
    let p = piece("a", &[(0, 0, 0)], c(2, 2, 2));
    assert_eq!(masks(&p), vec![1, 16, 4, 64, 2, 32, 8, 128]);
}

#[test]
fn unit_cube_in_unit_cuboid() {
    let p = piece("a", &[(0, 0, 0)], c(1, 1, 1));
    assert_eq!(masks(&p), vec![1]);
}

#[test]
fn domino_in_flat_cuboid() {
    let p = piece("d", &[(0, 0, 0), (0, 1, 0)], c(2, 2, 1));
    assert_eq!(masks(&p), vec![5, 10, 3, 12]);
}

#[test]
fn piece_keeps_name_code_and_base() {
    let base = Orientation(vec![c(0, 0, 0), c(0, 1, 0)]);
    let p = Piece::new("domino".to_string(), "D".to_string(), base, c(2, 2, 1));
    assert_eq!(p.name, "domino");
    assert_eq!(p.code, "D");
    assert_eq!(p.base.0, vec![c(0, 0, 0), c(0, 1, 0)]);
}

#[test]
fn block_has_one_orientation() {
    let cells: Vec<(i64, i64, i64)> =
        (0..8).map(|i| ((i & 1) as i64, ((i >> 1) & 1) as i64, ((i >> 2) & 1) as i64)).collect();
    let p = piece("b", &cells, c(4, 4, 4));
    assert_eq!(p.generate_unique_orientations(c(4, 4, 4)).len(), 1);
    assert_eq!(p.placements().len(), 27);
}

#[test]
fn unique_orientations_of_common_shapes() {
    let dim = c(4, 4, 4);
    assert_eq!(piece("i", &[(0, 0, 0), (1, 0, 0)], dim).generate_unique_orientations(dim).len(), 3);
    assert_eq!(
        piece("l", &[(0, 0, 0), (1, 0, 0), (2, 0, 0), (0, 1, 0)], dim)
            .generate_unique_orientations(dim)
            .len(),
        24
    );
    assert_eq!(
        piece("v", &[(0, 0, 0), (1, 0, 0), (0, 1, 0)], dim).generate_unique_orientations(dim).len(),
        12
    );
    assert_eq!(
        piece("p", &[(0, 0, 0), (1, 0, 0), (0, 1, 0), (0, 0, 1)], dim)
            .generate_unique_orientations(dim)
            .len(),
        8
    );
}

#[test]
fn unique_orientations_are_normalised() {
    let dim = c(3, 3, 3);
    let p = piece("z", &[(1, 1, 1), (2, 1, 1), (2, 2, 1), (2, 2, 2)], dim);
    for o in p.generate_unique_orientations(dim) {
        assert_eq!(o.0.iter().map(|c| c.x).min(), Some(0));
        assert_eq!(o.0.iter().map(|c| c.y).min(), Some(0));
        assert_eq!(o.0.iter().map(|c| c.z).min(), Some(0));
    }
}

#[test]
fn orientations_that_do_not_fit_are_left_out() {
    let dim = c(3, 1, 1);
    let p = piece("i", &[(0, 0, 0), (1, 0, 0), (2, 0, 0)], dim);
    assert_eq!(p.generate_unique_orientations(dim).len(), 1);
    assert_eq!(masks(&p), vec![7]);
}

#[test]
fn soma_placement_counts() {
    let dim = c(3, 3, 3);
    let shapes: Vec<Vec<(i64, i64, i64)>> = vec![
        vec![(0, 0, 0), (1, 0, 0), (0, 1, 0)],
        vec![(0, 0, 0), (1, 0, 0), (2, 0, 0), (0, 1, 0)],
        vec![(0, 0, 0), (1, 0, 0), (2, 0, 0), (1, 1, 0)],
        vec![(0, 0, 0), (1, 0, 0), (1, 1, 0), (2, 1, 0)],
        vec![(0, 0, 0), (1, 0, 0), (0, 1, 0), (0, 0, 1)],
        vec![(0, 0, 0), (1, 0, 0), (0, 1, 0), (1, 0, 1)],
        vec![(0, 0, 0), (1, 0, 0), (0, 1, 0), (0, 1, 1)],
    ];
    let counts: Vec<usize> =
        shapes.iter().map(|s| piece("s", s, dim).placements().len()).collect();
    assert_eq!(counts, vec![144, 144, 72, 72, 64, 96, 96]);
}

#[test]
fn every_placement_has_the_cells_of_the_piece() {
    let dim = c(4, 4, 4);
    let p = piece("l", &[(0, 0, 0), (1, 0, 0), (2, 0, 0), (0, 1, 0), (0, 0, 1)], dim);
    assert!(!p.placements().is_empty());
    for b in p.placements() {
        assert_eq!(b.0.count_ones(), 5);
    }
}

#[test]
fn placements_hold_no_duplicates() {
    let dim = c(4, 4, 4);
    let p = piece("t", &[(0, 0, 0), (1, 0, 0), (2, 0, 0), (1, 1, 0)], dim);
    let mut m = masks(&p);
    let n = m.len();
    m.sort();
    m.dedup();
    assert_eq!(m.len(), n);
    assert_eq!(n, 12 * 2 * 3 * 4);
}

#[test]
fn placements_are_closed_under_translation() {
    let dim = c(3, 3, 3);
    let p = piece("v", &[(0, 0, 0), (1, 0, 0), (0, 1, 0)], dim);
    let all = masks(&p);
    for &b in &all {
        let cells = Orientation::from_placement(Bitset(b), dim);
        for t in [c(1, 0, 0), c(-1, 0, 0), c(0, 1, 0), c(0, -1, 0), c(0, 0, 1), c(0, 0, -1)] {
            let moved = cells.shifted(t);
            if moved.fits(dim) {
                assert!(all.contains(&Bitset::from_orientation(&moved, dim).0));
            }
        }
    }
}

#[test]
fn compute_possible_positions_appends() {
    let dim = c(2, 1, 1);
    let mut p = piece("a", &[(0, 0, 0)], dim);
    assert_eq!(masks(&p), vec![1, 2]);
    let o = vec![Orientation(vec![c(0, 0, 0), c(1, 0, 0)])];
    p.compute_possible_positions(&o, dim);
    assert_eq!(masks(&p), vec![1, 2, 3]);
}

#[test]
fn rotated_piece_has_the_same_orientations() {
    let dim = c(4, 4, 4);
    let base = Orientation(vec![c(0, 0, 0), c(1, 0, 0), c(2, 0, 0), c(0, 1, 0), c(0, 0, 1)]);
    let key = |p: &Piece| {
        let mut m: Vec<u64> = p
            .generate_unique_orientations(dim)
            .iter()
            .map(|o| Bitset::from_orientation(o, dim).0)
            .collect();
        m.sort();
        m
    };
    let first = key(&Piece::new("p".to_string(), "P".to_string(), base.clone(), dim));
    for turned in base.get_all_rotations(dim) {
        let other = key(&Piece::new("p".to_string(), "P".to_string(), turned, dim));
        assert_eq!(first, other);
    }
}

#[test]
fn arrangement_push_and_pop() {
    let mut a = Arrangement::new();
    assert_eq!(a.occupied, Bitset(0));
    assert!(a.placements.is_empty());
    a.push(3, Bitset(0b0011));
    a.push(1, Bitset(0b1100));
    assert_eq!(a.occupied, Bitset(0b1111));
    assert_eq!(a.placements, vec![(3, Bitset(0b0011)), (1, Bitset(0b1100))]);
    assert_eq!(a.pop(), Some((1, Bitset(0b1100))));
    assert_eq!(a.occupied, Bitset(0b0011));
    assert_eq!(a.pop(), Some((3, Bitset(0b0011))));
    assert_eq!(a.occupied, Bitset(0));
    assert_eq!(a.pop(), None);
    assert_eq!(a.occupied, Bitset(0));
}

#[test]
fn arrangement_owner_is_first_holder() {
    let mut a = Arrangement::new();
    a.push(3, Bitset(0b0011));
    a.push(1, Bitset(0b1100));
    assert_eq!(a.owner(0), Some(3));
    assert_eq!(a.owner(3), Some(1));
    assert_eq!(a.owner(4), None);
}

#[test]
fn arrangement_clone_is_equal() {
    let mut a = Arrangement::new();
    a.push(3, Bitset(0b0011));
    let b = a.clone();
    assert_eq!(b.occupied, a.occupied);
    assert_eq!(b.placements, a.placements);
}

#[test]
fn puzzle_corners() {
    let p = Puzzle::new("p".to_string(), vec![], c(2, 3, 4));
    assert_eq!(
        p.corners(),
        vec![
            c(1, 2, 3),
            c(0, 2, 3),
            c(1, 0, 3),
            c(0, 0, 3),
            c(1, 2, 0),
            c(0, 2, 0),
            c(1, 0, 0),
            c(0, 0, 0),
        ]
    );
}

#[test]
fn puzzle_cells_and_full_board() {
    let p = Puzzle::new("p".to_string(), vec![], c(3, 3, 3));
    assert_eq!(p.cells(), 27);
    assert_eq!(p.full_board(), Bitset((1 << 27) - 1));
    let p = Puzzle::new("p".to_string(), vec![], c(4, 4, 4));
    assert_eq!(p.full_board(), Bitset(u64::MAX));
}

#[test]
fn puzzle_lookup_lists_placements_by_cell() {
    let dim = c(2, 2, 1);
    let pieces = vec![piece("a", &[(0, 0, 0), (0, 1, 0)], dim), piece("b", &[(0, 0, 0)], dim)];
    let p = Puzzle::new("p".to_string(), pieces, dim);
    assert_eq!(p.lookup.len(), 64);
    assert_eq!(p.lookup[0], vec![(0, Bitset(5)), (0, Bitset(3)), (1, Bitset(1))]);
    assert_eq!(p.lookup[3], vec![(0, Bitset(10)), (0, Bitset(12)), (1, Bitset(8))]);
    assert!(p.lookup[4].is_empty());
    assert_eq!(build_lookup(&p.pieces), p.lookup);
}

#[test]
fn puzzle_check_accepts_generated_pieces() {
    let dim = c(3, 3, 3);
    let pieces = vec![
        piece("a", &[(0, 0, 0), (1, 0, 0), (0, 1, 0)], dim),
        piece("b", &[(0, 0, 0), (1, 0, 0), (0, 1, 0), (0, 0, 1)], dim),
    ];
    assert!(Puzzle::new("p".to_string(), pieces, dim).check());
}

#[test]
fn puzzle_check_rejects_bad_dimension() {
    assert!(!Puzzle::new("p".to_string(), vec![], c(0, 1, 1)).check());
    assert!(!Puzzle::new("p".to_string(), vec![], c(5, 5, 3)).check());
    assert!(!Puzzle::new("p".to_string(), vec![], c(65, 1, 1)).check());
    assert!(Puzzle::new("p".to_string(), vec![], c(64, 1, 1)).check());
    assert!(Puzzle::new("p".to_string(), vec![], c(4, 4, 4)).check());
}

#[test]
fn puzzle_check_rejects_bad_placements() {
    let dim = c(2, 1, 1);
    let mut p = piece("a", &[(0, 0, 0)], dim);
    p.placements.push(Bitset(1));
    assert!(!Puzzle::new("p".to_string(), vec![p], dim).check());
    let mut p = piece("a", &[(0, 0, 0)], dim);
    p.placements.push(Bitset(0));
    assert!(!Puzzle::new("p".to_string(), vec![p], dim).check());
    let mut p = piece("a", &[(0, 0, 0)], dim);
    p.placements.push(Bitset(4));
    assert!(!Puzzle::new("p".to_string(), vec![p], dim).check());
}

#[test]
fn show_lists_owners_row_by_row() {
    let dim = c(2, 2, 2);
    let p = Puzzle::new("p".to_string(), vec![], dim);
    let mut a = Arrangement::new();
    // piece 7 on cells (0,0,0) and (1,0,0); piece 2 on cell (1,1,1)
    a.push(7, Bitset(0b11));
    a.push(2, Bitset(1 << 7));
    let rows = p.show(&a);
    assert_eq!(
        rows,
        vec![
            vec![vec![None, None], vec![None, Some(2)]],
            vec![vec![Some(7), Some(7)], vec![None, None]],
        ]
    );
}

#[test]
fn show_skips_cells_that_are_not_occupied() {
    let dim = c(2, 1, 1);
    let p = Puzzle::new("p".to_string(), vec![], dim);
    let mut a = Arrangement::new();
    a.push(0, Bitset(0b01));
    a.occupied = Bitset(0b10);
    assert_eq!(p.show(&a), vec![vec![vec![None, None]]]);
}
