use bedlam_cube::bitset::Bitset;
use bedlam_cube::coord::Coord;
use bedlam_cube::orientation::Orientation;
use bedlam_cube::piece::Piece;
use bedlam_cube::puzzle::{Arrangement, Puzzle};
use bedlam_cube::solver::Solver;

fn c(x: i64, y: i64, z: i64) -> Coord {
    Coord { x, y, z }
}

fn puzzle(shapes: &[Vec<(i64, i64, i64)>], dim: Coord) -> Puzzle {
    let pieces: Vec<Piece> = shapes
        .iter()
        .enumerate()
        .map(|(i, cells)| {
            let base = Orientation(cells.iter().map(|&(x, y, z)| c(x, y, z)).collect());
            Piece::new(format!("piece {}", i), format!("{:X}", i), base, dim)
        })
        .collect();
    let p = Puzzle::new("test".to_string(), pieces, dim);
    assert!(p.check());
    p
}

fn soma() -> Puzzle {
    puzzle(
        &[
            vec![(0, 0, 0), (1, 0, 0), (0, 1, 0)],
            vec![(0, 0, 0), (1, 0, 0), (2, 0, 0), (0, 1, 0)],
            vec![(0, 0, 0), (1, 0, 0), (2, 0, 0), (1, 1, 0)],
            vec![(0, 0, 0), (1, 0, 0), (1, 1, 0), (2, 1, 0)],
            vec![(0, 0, 0), (1, 0, 0), (0, 1, 0), (0, 0, 1)],
            vec![(0, 0, 0), (1, 0, 0), (0, 1, 0), (1, 0, 1)],
            vec![(0, 0, 0), (1, 0, 0), (0, 1, 0), (0, 1, 1)],
        ],
        c(3, 3, 3),
    )
}

fn dominoes() -> Puzzle {
    puzzle(&[vec![(0, 0, 0), (0, 1, 0)], vec![(0, 0, 0), (0, 1, 0)]], c(2, 2, 1))
}

fn unit_cubes() -> Puzzle {
    puzzle(&vec![vec![(0, 0, 0)]; 8], c(2, 2, 2))
}

fn all_solutions(p: &Puzzle) -> Vec<Arrangement> {
    let mut out = Vec::new();
    let mut a = Arrangement::new();
    let remaining: Vec<usize> = (0..p.pieces.len()).collect();
    Solver::solve_board(&mut out, p, &mut a, 0, &remaining);
    assert_eq!(a.occupied, Bitset(0));
    assert!(a.placements.is_empty());
    out
}

fn is_tiling(p: &Puzzle, a: &Arrangement) {
    assert_eq!(a.occupied, p.full_board());
    let mut board = 0u64;
    let mut used = vec![false; p.pieces.len()];
    for &(pid, b) in &a.placements {
        assert!(!used[pid]);
        used[pid] = true;
        assert!(p.pieces[pid].placements.contains(&b));
        assert_eq!(board & b.0, 0);
        board |= b.0;
    }
    assert_eq!(board, p.full_board().0);
    assert!(used.iter().all(|u| *u));
}

#[test]
fn single_cube_has_one_solution() {
    let p = puzzle(&[vec![(0, 0, 0)]], c(1, 1, 1));
    let report = Solver::build().begin(&p);
    assert_eq!(report.piece, 0);
    assert_eq!(report.starts.len(), 1);
    assert_eq!(report.total(), 1);
    assert_eq!(report.found[0][0].placements, vec![(0, Bitset(1))]);
    assert_eq!(all_solutions(&p).len(), 1);
}

#[test]
fn two_dominoes_after_symmetry_reduction() {
    let p = dominoes();
    let report = Solver::build().begin(&p);
    assert_eq!(report.piece, 0);
    assert_eq!(report.starts.len(), 1);
    assert_eq!(report.starts[0].placements, vec![(0, Bitset(5))]);
    assert_eq!(report.total(), 1);
    assert_eq!(report.found[0][0].placements, vec![(0, Bitset(5)), (1, Bitset(10))]);
}

#[test]
fn two_dominoes_without_symmetry_reduction() {
    let p = dominoes();
    let all = all_solutions(&p);
    let stacks: Vec<Vec<(usize, Bitset)>> = all.iter().map(|a| a.placements.clone()).collect();
    assert_eq!(
        stacks,
        vec![
            vec![(0, Bitset(5)), (1, Bitset(10))],
            vec![(0, Bitset(3)), (1, Bitset(12))],
            vec![(1, Bitset(5)), (0, Bitset(10))],
            vec![(1, Bitset(3)), (0, Bitset(12))],
        ]
    );
    // two tilings of the board, each with the two pieces either way round
    let mut shapes: Vec<Vec<u64>> = stacks
        .iter()
        .map(|s| {
            let mut m: Vec<u64> = s.iter().map(|e| e.1 .0).collect();
            m.sort();
            m
        })
        .collect();
    shapes.sort();
    shapes.dedup();
    assert_eq!(shapes.len(), 2);
}

#[test]
fn eight_unit_cubes_after_symmetry_reduction() {
    let p = unit_cubes();
    let report = Solver::build().begin(&p);
    assert_eq!(report.piece, 0);
    assert_eq!(report.starts.len(), 1);
    assert_eq!(report.starts[0].placements, vec![(0, Bitset(1))]);
    assert_eq!(report.total(), 5040);
    // with the pieces taken as alike, one way to fill the cuboid is left
    let mut shapes: Vec<Vec<u64>> = report.found[0]
        .iter()
        .map(|a| {
            let mut m: Vec<u64> = a.placements.iter().map(|e| e.1 .0).collect();
            m.sort();
            m
        })
        .collect();
    shapes.sort();
    shapes.dedup();
    assert_eq!(shapes.len(), 1);
}

#[test]
fn eight_unit_cubes_without_symmetry_reduction() {
    let p = unit_cubes();
    assert_eq!(all_solutions(&p).len(), 40320);
}

#[test]
fn symmetry_reduction_divides_by_orbit_size() {
    // one corner cell has 8 images under the 24 rotations of the cube
    let p = unit_cubes();
    let with = Solver::build().begin(&p).total();
    let without = all_solutions(&p).len();
    assert_eq!(with * 8, without);
    // a domino in the flat cuboid has 4 images under its 8 rotations
    let p = dominoes();
    assert_eq!(Solver::build().begin(&p).total() * 4, all_solutions(&p).len());
}

#[test]
fn soma_cube() {
    let p = soma();
    let report = Solver::build().begin(&p);
    assert_eq!(report.piece, 4);
    let starts: Vec<u64> = report.starts.iter().map(|a| a.occupied.0).collect();
    assert_eq!(starts, vec![523, 1043, 8218, 13328]);
    let counts: Vec<usize> = report.found.iter().map(|f| f.len()).collect();
    assert_eq!(counts, vec![1218, 0, 74, 0]);
    assert_eq!(report.total(), 1292);
    // the first class has 8 placements, each fixed by 3 rotations; the third
    // has 24: 240 tilings, each in 48 poses
    assert_eq!(8 * counts[0] + 24 * counts[2], 240 * 48);
    assert_eq!(counts[0] / 3 + counts[2], 2 * 240);
    for f in &report.found {
        for a in f {
            is_tiling(&p, a);
        }
    }
}

#[test]
fn soma_solutions_are_distinct() {
    let p = soma();
    let report = Solver::build().begin(&p);
    let mut stacks: Vec<Vec<(usize, u64)>> = Vec::new();
    for f in &report.found {
        for a in f {
            let mut s: Vec<(usize, u64)> = a.placements.iter().map(|e| (e.0, e.1 .0)).collect();
            s.sort();
            stacks.push(s);
        }
    }
    let n = stacks.len();
    stacks.sort();
    stacks.dedup();
    assert_eq!(stacks.len(), n);
}

#[test]
fn blocked_cell_leaves_no_solution() {
    let p = dominoes();
    let mut out = Vec::new();
    let mut a = Arrangement::new();
    a.occupied = Bitset(1);
    Solver::solve_board(&mut out, &p, &mut a, 0, &vec![0, 1]);
    assert!(out.is_empty());
    let p = soma();
    let mut a = Arrangement::new();
    a.occupied = Bitset(1 << 13);
    Solver::solve_board(&mut out, &p, &mut a, 0, &vec![0, 1, 2, 3, 4, 5, 6]);
    assert!(out.is_empty());
}

#[test]
fn no_piece_left_and_board_not_full() {
    let p = dominoes();
    let mut out = Vec::new();
    let mut a = Arrangement::new();
    a.push(0, Bitset(5));
    Solver::solve_board(&mut out, &p, &mut a, 0, &vec![]);
    assert!(out.is_empty());
    a.push(1, Bitset(10));
    Solver::solve_board(&mut out, &p, &mut a, 0, &vec![]);
    assert_eq!(out.len(), 1);
    assert_eq!(out[0].placements, a.placements);
}

#[test]
fn solve_board_keeps_earlier_solutions() {
    let p = dominoes();
    let mut out = Vec::new();
    let mut a = Arrangement::new();
    Solver::solve_board(&mut out, &p, &mut a, 0, &vec![0, 1]);
    Solver::solve_board(&mut out, &p, &mut a, 0, &vec![1, 0]);
    assert_eq!(out.len(), 8);
    assert_eq!(out[0].placements, vec![(0, Bitset(5)), (1, Bitset(10))]);
    assert_eq!(out[4].placements, vec![(1, Bitset(5)), (0, Bitset(10))]);
}

#[test]
fn pruned_and_unpruned_search_agree() {
    // every way to choose a placement for each piece, checked directly
    let p = soma();
    let start = Bitset(8218);
    let others = vec![0usize, 1, 2, 3, 5, 6];
    let mut out = Vec::new();
    let mut a = Arrangement::new();
    a.push(4, start);
    Solver::solve_board(&mut out, &p, &mut a, 0, &others);
    let mut found: Vec<Vec<u64>> = out
        .iter()
        .map(|s| others.iter().map(|&q| s.placements.iter().find(|e| e.0 == q).unwrap().1 .0).collect())
        .collect();
    found.sort();
    fn brute(p: &Puzzle, others: &[usize], k: usize, board: u64, pick: &mut Vec<u64>, out: &mut Vec<Vec<u64>>) {
        if k == others.len() {
            if board == p.full_board().0 {
                out.push(pick.clone());
            }
            return;
        }
        for b in &p.pieces[others[k]].placements {
            if b.0 & board == 0 {
                pick.push(b.0);
                brute(p, others, k + 1, board | b.0, pick, out);
                pick.pop();
            }
        }
    }
    let mut want = Vec::new();
    brute(&p, &others, 0, start.0, &mut Vec::new(), &mut want);
    want.sort();
    assert_eq!(found.len(), 74);
    assert_eq!(found, want);
}

#[test]
fn constrain_start_picks_first_least_piece() {
    let p = soma();
    let (pid, starts) = Solver::build().constrain_start(&p);
    assert_eq!(pid, 4);
    assert_eq!(starts.len(), 4);
    for s in &starts {
        assert_eq!(s.placements.len(), 1);
        assert_eq!(s.placements[0].0, 4);
        assert_eq!(s.placements[0].1, s.occupied);
        assert!(p.pieces[4].placements.contains(&s.occupied));
    }
    let (pid, _) = Solver::build().constrain_start(&dominoes());
    assert_eq!(pid, 0);
}

#[test]
fn new_cube_finds_lowest_empty_cell() {
    let p = dominoes();
    let mut a = Arrangement::new();
    assert_eq!(Solver::new_cube(&p, &a, 0), Some((0, Bitset(1))));
    a.occupied = Bitset(0b0111);
    assert_eq!(Solver::new_cube(&p, &a, 0), Some((3, Bitset(8))));
    assert_eq!(Solver::new_cube(&p, &a, 3), Some((3, Bitset(8))));
    a.occupied = Bitset(0b0101);
    assert_eq!(Solver::new_cube(&p, &a, 0), Some((1, Bitset(2))));
    assert_eq!(Solver::new_cube(&p, &a, 2), Some((3, Bitset(8))));
}

#[test]
fn new_cube_on_full_board() {
    let p = dominoes();
    let mut a = Arrangement::new();
    a.occupied = Bitset(0b1111);
    assert_eq!(Solver::new_cube(&p, &a, 0), None);
    a.occupied = Bitset(0b1000);
    assert_eq!(Solver::new_cube(&p, &a, 3), None);
    assert_eq!(Solver::new_cube(&p, &a, 4), None);
    let q = puzzle(&[vec![(0, 0, 0)]], c(4, 4, 4));
    a.occupied = Bitset(u64::MAX);
    assert_eq!(Solver::new_cube(&q, &a, 0), None);
    a.occupied = Bitset(u64::MAX >> 1);
    assert_eq!(Solver::new_cube(&q, &a, 0), Some((63, Bitset(1 << 63))));
}

#[test]
fn fit_test() {
    let p = dominoes();
    assert!(Solver::can_pieces_fit(&p, Bitset(0), &vec![0, 1]));
    assert!(Solver::can_pieces_fit(&p, Bitset(0b0011), &vec![0, 1]));
    assert!(!Solver::can_pieces_fit(&p, Bitset(0b0110), &vec![0]));
    assert!(!Solver::can_pieces_fit(&p, Bitset(0b1111), &vec![1]));
    assert!(Solver::can_pieces_fit(&p, Bitset(0b1111), &vec![]));
}

#[test]
fn coverage_test() {
    let p = dominoes();
    assert!(Solver::has_full_coverage(&p, Bitset(0), &vec![0]));
    assert!(Solver::has_full_coverage(&p, Bitset(0b0011), &vec![1]));
    assert!(!Solver::has_full_coverage(&p, Bitset(0b0110), &vec![0, 1]));
    assert!(!Solver::has_full_coverage(&p, Bitset(0b0011), &vec![]));
    assert!(Solver::has_full_coverage(&p, Bitset(0b1111), &vec![]));
    // an isolated cell: both pieces fit, but nothing reaches cell 0
    let q = puzzle(&[vec![(0, 0, 0), (1, 0, 0)], vec![(0, 0, 0), (1, 0, 0)]], c(3, 2, 1));
    let board = Bitset(0b001_010);
    assert!(Solver::can_pieces_fit(&q, board, &vec![0, 1]));
    assert!(!Solver::has_full_coverage(&q, board, &vec![0, 1]));
}

#[test]
fn count_of_placements_on_a_cell() {
    let p = dominoes();
    assert_eq!(Solver::number_orientations_for_coord(&p, Bitset(0), &vec![0, 1], c(0, 0, 0)), 4);
    assert_eq!(Solver::number_orientations_for_coord(&p, Bitset(0), &vec![1], c(1, 1, 0)), 2);
    assert_eq!(Solver::number_orientations_for_coord(&p, Bitset(2), &vec![0, 1], c(0, 0, 0)), 2);
    assert_eq!(Solver::number_orientations_for_coord(&p, Bitset(1), &vec![0, 1], c(0, 0, 0)), 0);
    assert_eq!(Solver::number_orientations_for_coord(&p, Bitset(0), &vec![], c(0, 0, 0)), 0);
}

#[test]
fn check_next_piece_tries_one_piece() {
    let p = dominoes();
    let mut out = Vec::new();
    let mut a = Arrangement::new();
    Solver::check_next_piece(&mut out, &p, &vec![0, 1], 1, 1, &mut a, Bitset(1), 0);
    let stacks: Vec<Vec<(usize, Bitset)>> = out.iter().map(|a| a.placements.clone()).collect();
    assert_eq!(
        stacks,
        vec![vec![(1, Bitset(5)), (0, Bitset(10))], vec![(1, Bitset(3)), (0, Bitset(12))]]
    );
    assert!(a.placements.is_empty());
    assert_eq!(a.occupied, Bitset(0));
}

#[test]
fn report_total_adds_up() {
    let p = soma();
    let report = Solver::build().begin(&p);
    let sum: usize = report.found.iter().map(|f| f.len()).sum();
    assert_eq!(report.total(), sum);
    assert_eq!(report.found.len(), report.starts.len());
}

#[test]
fn same_input_same_count() {
    let p = soma();
    let a = Solver::build().begin(&p).total();
    let b = Solver::build().begin(&p).total();
    assert_eq!(a, b);
}

#[test]
fn symmetry_reduction_by_24() {
    // a corner of three cells and the rest of the cube: no rotation but the
    // identity keeps a placement of the corner in place
    let p = puzzle(
        &[
            vec![(0, 0, 0), (1, 0, 0), (0, 1, 0)],
            vec![(1, 1, 0), (0, 0, 1), (1, 0, 1), (0, 1, 1), (1, 1, 1)],
        ],
        c(2, 2, 2),
    );
    assert_eq!(p.pieces[0].placements.len(), 24);
    for b in &p.pieces[0].placements {
        let mut images: Vec<u64> = Orientation::symmetry_images(*b, c(2, 2, 2))
            .iter()
            .map(|i| i.unwrap().0)
            .collect();
        images.sort();
        images.dedup();
        assert_eq!(images.len(), 24);
    }
    let report = Solver::build().begin(&p);
    assert_eq!(report.piece, 0);
    assert_eq!(report.starts.len(), 1);
    assert_eq!(report.total(), 1);
    assert_eq!(all_solutions(&p).len(), 24);
}

#[test]
fn search_shared_out_by_first_piece_finds_the_same() {
    let p = soma();
    let (pid, starts) = Solver::build().constrain_start(&p);
    let remaining: Vec<usize> = (0..p.pieces.len()).filter(|q| *q != pid).collect();
    for start in &starts {
        let mut whole = Vec::new();
        Solver::solve_board(&mut whole, &p, &mut start.clone(), 0, &remaining);
        let (cube, mask) = Solver::new_cube(&p, start, 0).unwrap();
        let mut parts = Vec::new();
        for (idx, q) in remaining.iter().enumerate().rev() {
            let mut found = Vec::new();
            let mut a = start.clone();
            Solver::check_next_piece(&mut found, &p, &remaining, idx, *q, &mut a, mask, cube);
            for f in &found {
                assert_eq!(f.placements[1].0, *q);
            }
            parts.push(found);
        }
        let mut joined: Vec<Vec<(usize, Bitset)>> =
            parts.iter().flatten().map(|a| a.placements.clone()).collect();
        let mut direct: Vec<Vec<(usize, Bitset)>> =
            whole.iter().map(|a| a.placements.clone()).collect();
        joined.sort_by_key(|s| s.iter().map(|e| (e.0, e.1 .0)).collect::<Vec<_>>());
        direct.sort_by_key(|s| s.iter().map(|e| (e.0, e.1 .0)).collect::<Vec<_>>());
        assert_eq!(joined, direct);
    }
}
