use bedlam_cube::bitset::Bitset;
use bedlam_cube::coord::Coord;
use bedlam_cube::orientation::Orientation;

fn cube4() -> Coord {
    Coord { x: 4, y: 4, z: 4 }
}

#[test]
fn new_bitset_is_empty() {
    let b = Bitset::new();
    assert_eq!(b.0, 0);
    for i in 0..64 {
        assert!(!b.get(i));
    }
}

#[test]
fn set_then_get() {
    let mut b = Bitset::new();
    b.set(0);
    b.set(5);
    b.set(63);
    assert_eq!(b.0, 1 | (1 << 5) | (1 << 63));
    assert!(b.get(0));
    assert!(b.get(5));
    assert!(b.get(63));
    assert!(!b.get(1));
    assert!(!b.get(62));
}

#[test]
fn set_is_idempotent() {
    let mut b = Bitset(0b100);
    b.set(2);
    assert_eq!(b, Bitset(0b100));
}

#[test]
fn union_intersection_xor() {
    let a = Bitset(0b1100);
    let b = Bitset(0b1010);
    assert_eq!(a.union(b), Bitset(0b1110));
    assert_eq!(a.intersection(b), Bitset(0b1000));
    assert_eq!(a.xor(b), Bitset(0b0110));
}

#[test]
fn intersects_is_shared_cell() {
    assert!(Bitset(0b1100).intersects(Bitset(0b0100)));
    assert!(!Bitset(0b1100).intersects(Bitset(0b0011)));
    assert!(!Bitset(0).intersects(Bitset(u64::MAX)));
}

#[test]
fn full_has_low_bits() {
    assert_eq!(Bitset::full(0), Bitset(0));
    assert_eq!(Bitset::full(1), Bitset(1));
    assert_eq!(Bitset::full(4), Bitset(0b1111));
    assert_eq!(Bitset::full(27), Bitset((1 << 27) - 1));
    assert_eq!(Bitset::full(64), Bitset(u64::MAX));
}

#[test]
fn from_orientation_sets_cell_bits() {
    let o = Orientation(vec![Coord { x: 0, y: 0, z: 0 }, Coord { x: 1, y: 2, z: 3 }]);
    let b = Bitset::from_orientation(&o, cube4());
    assert_eq!(b, Bitset(1 | (1 << 57)));
}

#[test]
fn from_orientation_uses_the_dimension() {
    let o = Orientation(vec![Coord { x: 1, y: 1, z: 0 }, Coord { x: 0, y: 0, z: 1 }]);
    let b = Bitset::from_orientation(&o, Coord { x: 2, y: 3, z: 2 });
    assert_eq!(b, Bitset((1 << 3) | (1 << 6)));
}

#[test]
fn from_orientation_of_nothing_is_empty() {
    let o = Orientation(vec![]);
    assert_eq!(Bitset::from_orientation(&o, cube4()), Bitset(0));
}

#[test]
fn has_coord_set_reads_the_cell() {
    let b = Bitset(1 << 57);
    assert!(b.has_coord_set(&Coord { x: 1, y: 2, z: 3 }, cube4()));
    assert!(!b.has_coord_set(&Coord { x: 2, y: 1, z: 3 }, cube4()));
}

#[test]
fn placement_round_trip() {
    let dim = Coord { x: 3, y: 3, z: 3 };
    let p = Bitset(0b1_0000_1011 | (1 << 26));
    let o = Orientation::from_placement(p, dim);
    assert_eq!(Bitset::from_orientation(&o, dim), p);
}

#[test]
fn from_placement_lists_row_by_row() {
    let dim = Coord { x: 2, y: 2, z: 2 };
    // cells (1,0,0), (0,1,0), (0,0,1), (1,1,1)
    let p = Bitset((1 << 1) | (1 << 2) | (1 << 4) | (1 << 7));
    let o = Orientation::from_placement(p, dim);
    assert_eq!(
        o.0,
        vec![
            Coord { x: 1, y: 0, z: 0 },
            Coord { x: 0, y: 0, z: 1 },
            Coord { x: 0, y: 1, z: 0 },
            Coord { x: 1, y: 1, z: 1 },
        ]
    );
}

#[test]
fn from_placement_ignores_bits_beyond_the_cuboid() {
    let dim = Coord { x: 2, y: 1, z: 1 };
    let o = Orientation::from_placement(Bitset(0b1110), dim);
    assert_eq!(o.0, vec![Coord { x: 1, y: 0, z: 0 }]);
}

#[test]
fn grid_of_a_cube_of_four() {
    let g = Bitset(1 | (1 << 57)).grid();
    assert_eq!(g.len(), 4);
    for y in 0..4 {
        assert_eq!(g[y].len(), 4);
        for z in 0..4 {
            assert_eq!(g[y][z].len(), 4);
            for x in 0..4 {
                let set = (x, y, z) == (0, 0, 0) || (x, y, z) == (1, 2, 3);
                assert_eq!(g[y][z][x], set);
            }
        }
    }
}
