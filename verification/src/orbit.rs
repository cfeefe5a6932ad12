//! Counting with the rotations of the cube: where no two rotations take a
//! placement of the first piece to the same placement, the search from one
//! placement of each class finds one solution in 24.

use vstd::prelude::*;
use vstd::set_lib::{lemma_int_range, lemma_len_subset, set_int_range};
use crate::bitset::{bit, full_mask, within, Bitset, lemma_bit_full, lemma_bits_equal};
use crate::coord::{cell_count, valid_dim, Coord, lemma_dim_bounds, lemma_index_bound};
use crate::orientation::{
    cell_of, image, is_symmetry, pose, lemma_cell_of_index, lemma_image_bits, lemma_index_of_cell,
    lemma_pose,
};
use crate::piece::piece_placements;
use crate::puzzle::{Arrangement, Puzzle};
use crate::rotation::{
    compose, rot_of, lemma_apply_compose, lemma_inverse_pose, lemma_pose_index, lemma_pose_is_rot,
    lemma_proper,
};
use crate::solver::{constrained, orbit_reps, other_pieces, searched, start_of};
use crate::symmetry::{
    all_generated, class_of, lemma_class_size, lemma_image_inverse, lemma_orbit_apart,
    lemma_orbit_covered, lemma_orbit_member, lemma_turned_search_count,
};

verus! {

/// Whether a rotation of the cuboid takes `p` to `rep`.
pub open spec fn reaches(p: Bitset, rep: Bitset, dim: Coord) -> bool {
    exists|k: int| 0 <= k < 24 && is_symmetry(dim, k) && #[trigger] image(p, dim, k) == rep
}

/// How many of the first `n` placements a rotation takes to `rep`.
pub open spec fn members(ps: Seq<Bitset>, rep: Bitset, dim: Coord, n: int) -> int
    decreases n,
{
    if n <= 0 {
        0
    } else {
        members(ps, rep, dim, n - 1) + if reaches(ps[n - 1], rep, dim) {
            1int
        } else {
            0int
        }
    }
}

/// The sum of the first `n` numbers.
pub open spec fn total(c: Seq<int>, n: int) -> int
    decreases n,
{
    if n <= 0 {
        0
    } else {
        total(c, n - 1) + c[n - 1]
    }
}

/// The sum over the first `r` kept placements of their number `d` times the
/// number of their members among the first `n` placements.
pub open spec fn weighted(d: Seq<int>, ps: Seq<Bitset>, reps: Seq<Bitset>, dim: Coord, n: int, r: int) -> int
    decreases r,
{
    if r <= 0 {
        0
    } else {
        weighted(d, ps, reps, dim, n, r - 1) + d[r - 1] * members(ps, reps[r - 1], dim, n)
    }
}

/// The lengths of the lists.
pub open spec fn lengths(lists: Seq<Seq<Arrangement>>) -> Seq<int> {
    Seq::new(lists.len(), |i: int| lists[i].len() as int)
}

/// Two rotations of the cuboid, one after the other, are a rotation of the
/// cuboid.
pub proof fn lemma_image_compose(b: u64, dim: Coord, a: int, k: int) -> (both: int)
    requires
        valid_dim(dim),
        0 <= a < 24,
        0 <= k < 24,
        is_symmetry(dim, a),
        is_symmetry(dim, k),
    ensures
        0 <= both < 24,
        is_symmetry(dim, both),
        image(image(Bitset(b), dim, a), dim, k) == image(Bitset(b), dim, both),
{
    let n = cell_count(dim);
    lemma_dim_bounds(dim);
    let origin = Coord { x: 0, y: 0, z: 0 };
    lemma_pose_is_rot(origin, dim, a);
    lemma_pose_is_rot(origin, dim, k);
    lemma_proper(rot_of(a), rot_of(k));
    let both = lemma_pose_index(compose(rot_of(a), rot_of(k)));
    lemma_pose_is_rot(origin, dim, both);
    lemma_apply_compose(rot_of(a), rot_of(k), origin, dim);
    let once = image(Bitset(b), dim, a).0;
    let twice = image(image(Bitset(b), dim, a), dim, k).0;
    let direct = image(Bitset(b), dim, both).0;
    assert forall|c: Coord| c.inside(dim) implies #[trigger] pose(pose(c, dim, a), dim, k) == pose(
        c,
        dim,
        both,
    ) && pose(c, dim, a).inside(dim) by {
        lemma_pose_is_rot(c, dim, a);
        lemma_pose(c, c, dim, a);
        lemma_pose_is_rot(pose(c, dim, a), dim, k);
        lemma_pose_is_rot(c, dim, both);
        lemma_apply_compose(rot_of(a), rot_of(k), c, dim);
    }
    assert forall|q: int| 0 <= q < 64 implies bit(twice, q) == bit(direct, q) by {
        lemma_image_bits(once, dim, k, n, q);
        lemma_image_bits(b, dim, both, n, q);
        if bit(twice, q) {
            let m = choose|m: int|
                0 <= m < n && #[trigger] bit(once, m) && pose(cell_of(m, dim), dim, k).index(dim)
                    == q;
            lemma_image_bits(b, dim, a, n, m);
            let m0 = choose|m0: int|
                0 <= m0 < n && #[trigger] bit(b, m0) && pose(cell_of(m0, dim), dim, a).index(dim)
                    == m;
            let c = cell_of(m0, dim);
            lemma_index_of_cell(m0, dim);
            assert(pose(pose(c, dim, a), dim, k) == pose(c, dim, both));
            lemma_cell_of_index(pose(c, dim, a), dim);
            assert(bit(b, m0) && pose(cell_of(m0, dim), dim, both).index(dim) == q);
        }
        if bit(direct, q) {
            let m0 = choose|m0: int|
                0 <= m0 < n && #[trigger] bit(b, m0) && pose(cell_of(m0, dim), dim, both).index(dim)
                    == q;
            let c = cell_of(m0, dim);
            lemma_index_of_cell(m0, dim);
            assert(pose(pose(c, dim, a), dim, k) == pose(c, dim, both));
            let m = pose(c, dim, a).index(dim);
            lemma_index_bound(pose(c, dim, a), dim);
            lemma_cell_of_index(pose(c, dim, a), dim);
            lemma_image_bits(b, dim, a, n, m);
            assert(bit(once, m));
        }
    }
    lemma_bits_equal(twice, direct);
    both
}

/// A rotation takes `p` to `rep` exactly when a rotation takes `rep` to `p`.
pub proof fn lemma_reaches_back(p: Bitset, rep: Bitset, dim: Coord)
    requires
        valid_dim(dim),
        within(p.0, full_mask(cell_count(dim))),
        within(rep.0, full_mask(cell_count(dim))),
    ensures
        reaches(p, rep, dim) <==> reaches(rep, p, dim),
{
    if reaches(p, rep, dim) {
        let k = choose|k: int| 0 <= k < 24 && is_symmetry(dim, k) && #[trigger] image(p, dim, k) == rep;
        let g = lemma_inverse_pose(dim, k);
        lemma_image_inverse(p.0, dim, k, g);
        assert(Bitset(p.0) == p);
        assert(image(rep, dim, g) == p);
    }
    if reaches(rep, p, dim) {
        let k = choose|k: int| 0 <= k < 24 && is_symmetry(dim, k) && #[trigger] image(rep, dim, k) == p;
        let g = lemma_inverse_pose(dim, k);
        lemma_image_inverse(rep.0, dim, k, g);
        assert(Bitset(rep.0) == rep);
        assert(image(p, dim, g) == rep);
    }
}

/// The number of members among the first `n` placements is the size of the set
/// of their indices.
pub proof fn lemma_members_set(ps: Seq<Bitset>, rep: Bitset, dim: Coord, n: int)
    requires
        0 <= n <= ps.len(),
    ensures
        Set::new(|w: int| 0 <= w < n && reaches(ps[w], rep, dim)).finite(),
        Set::new(|w: int| 0 <= w < n && reaches(ps[w], rep, dim)).len() == members(ps, rep, dim, n),
    decreases n,
{
    let now = Set::new(|w: int| 0 <= w < n && reaches(ps[w], rep, dim));
    if n <= 0 {
        assert(now =~= Set::<int>::empty());
    } else {
        let before = Set::new(|w: int| 0 <= w < n - 1 && reaches(ps[w], rep, dim));
        lemma_members_set(ps, rep, dim, n - 1);
        if reaches(ps[n - 1], rep, dim) {
            assert(now =~= before.insert(n - 1));
        } else {
            assert(now =~= before);
        }
    }
}

/// One more placement adds the number of its class to the weighted sum.
pub proof fn lemma_weighted_step(
    d: Seq<int>,
    ps: Seq<Bitset>,
    reps: Seq<Bitset>,
    dim: Coord,
    n: int,
    r: int,
    at: int,
)
    requires
        0 < n <= ps.len(),
        0 <= r <= reps.len(),
        forall|i: int| 0 <= i < r ==> (reaches(ps[n - 1], #[trigger] reps[i], dim) <==> i == at),
    ensures
        weighted(d, ps, reps, dim, n, r) == weighted(d, ps, reps, dim, n - 1, r) + if 0 <= at < r {
            d[at]
        } else {
            0
        },
    decreases r,
{
    if r > 0 {
        lemma_weighted_step(d, ps, reps, dim, n, r - 1, at);
        let x = d[r - 1];
        let m = members(ps, reps[r - 1], dim, n - 1);
        assert(reaches(ps[n - 1], reps[r - 1], dim) <==> r - 1 == at);
        assert(x * (m + 1) == x * m + x) by (nonlinear_arith);
    }
}

/// Where every kept placement has 24 members, the weighted sum is 24 times
/// the sum.
pub proof fn lemma_weighted_full(d: Seq<int>, ps: Seq<Bitset>, reps: Seq<Bitset>, dim: Coord, n: int, r: int)
    requires
        0 <= r <= reps.len(),
        forall|i: int| 0 <= i < r ==> members(ps, #[trigger] reps[i], dim, n) == 24,
    ensures
        weighted(d, ps, reps, dim, n, r) == 24 * total(d, r),
    decreases r,
{
    if r > 0 {
        lemma_weighted_full(d, ps, reps, dim, n, r - 1);
        assert(members(ps, reps[r - 1], dim, n) == 24);
    }
}

/// A rotation takes placement `j` to one of the kept placements.
pub open spec fn belongs(ps: Seq<Bitset>, reps: Seq<Bitset>, dim: Coord, j: int) -> bool {
    exists|i: int| 0 <= i < reps.len() && reaches(ps[j], #[trigger] reps[i], dim)
}

/// Rotations take placement `j` to one kept placement at most.
pub open spec fn to_one(ps: Seq<Bitset>, reps: Seq<Bitset>, dim: Coord, j: int) -> bool {
    forall|a: int, b: int|
        0 <= a < b < reps.len() ==> !(reaches(ps[j], #[trigger] reps[a], dim) && reaches(
            ps[j],
            #[trigger] reps[b],
            dim,
        ))
}

/// Placement `j` has the number of each kept placement that a rotation takes
/// it to.
pub open spec fn agrees(
    c: Seq<int>,
    d: Seq<int>,
    ps: Seq<Bitset>,
    reps: Seq<Bitset>,
    dim: Coord,
    j: int,
) -> bool {
    forall|i: int| 0 <= i < reps.len() && reaches(ps[j], #[trigger] reps[i], dim) ==> c[j] == d[i]
}

/// Where every placement belongs to one kept placement and has its number, the
/// sum over the placements is the weighted sum over the kept placements.
pub proof fn lemma_total_weighted(
    c: Seq<int>,
    d: Seq<int>,
    ps: Seq<Bitset>,
    reps: Seq<Bitset>,
    dim: Coord,
    n: int,
)
    requires
        0 <= n <= ps.len(),
        c.len() == ps.len(),
        d.len() == reps.len(),
        forall|j: int| 0 <= j < ps.len() ==> #[trigger] belongs(ps, reps, dim, j),
        forall|j: int| 0 <= j < ps.len() ==> #[trigger] to_one(ps, reps, dim, j),
        forall|j: int| 0 <= j < ps.len() ==> #[trigger] agrees(c, d, ps, reps, dim, j),
    ensures
        total(c, n) == weighted(d, ps, reps, dim, n, reps.len() as int),
    decreases n,
{
    if n <= 0 {
        lemma_weighted_none(d, ps, reps, dim, reps.len() as int);
    } else {
        lemma_total_weighted(c, d, ps, reps, dim, n - 1);
        let j = n - 1;
        assert(belongs(ps, reps, dim, j) && to_one(ps, reps, dim, j) && agrees(c, d, ps, reps, dim, j));
        let at = choose|i: int| 0 <= i < reps.len() && reaches(ps[j], #[trigger] reps[i], dim);
        assert forall|i: int| 0 <= i < reps.len() implies (reaches(ps[n - 1], #[trigger] reps[i], dim)
            <==> i == at) by {
            if reaches(ps[j], reps[i], dim) && i != at {
                if i < at {
                    assert(!(reaches(ps[j], reps[i], dim) && reaches(ps[j], reps[at], dim)));
                } else {
                    assert(!(reaches(ps[j], reps[at], dim) && reaches(ps[j], reps[i], dim)));
                }
            }
        }
        lemma_weighted_step(d, ps, reps, dim, n, reps.len() as int, at);
        assert(c[j] == d[at]);
    }
}

/// With no placement counted, the weighted sum is zero.
proof fn lemma_weighted_none(d: Seq<int>, ps: Seq<Bitset>, reps: Seq<Bitset>, dim: Coord, r: int)
    requires
        0 <= r <= reps.len(),
    ensures
        weighted(d, ps, reps, dim, 0, r) == 0,
    decreases r,
{
    if r > 0 {
        lemma_weighted_none(d, ps, reps, dim, r - 1);
        assert(members(ps, reps[r - 1], dim, 0) == 0);
        assert(d[r - 1] * 0 == 0) by (nonlinear_arith);
    }
}

/// Every placement within the cuboid.
pub open spec fn all_within(ps: Seq<Bitset>, dim: Coord) -> bool {
    forall|i: int| 0 <= i < ps.len() ==> within((#[trigger] ps[i]).0, full_mask(cell_count(dim)))
}

/// Rotations take a placement to one of the kept placements, and to one only.
pub proof fn lemma_one_class(ps: Seq<Bitset>, dim: Coord, j: int)
    requires
        valid_dim(dim),
        all_within(ps, dim),
        0 <= j < ps.len(),
    ensures
        belongs(ps, orbit_reps(ps, dim, ps.len() as int), dim, j),
        to_one(ps, orbit_reps(ps, dim, ps.len() as int), dim, j),
{
    let n = ps.len() as int;
    let reps = orbit_reps(ps, dim, n);
    let (i0, k0) = lemma_orbit_covered(ps, dim, n, j);
    assert(reaches(ps[j], reps[i0], dim));
    assert forall|a: int, b: int| 0 <= a < b < reps.len() implies !(reaches(
        ps[j],
        #[trigger] reps[a],
        dim,
    ) && reaches(ps[j], #[trigger] reps[b], dim)) by {
        if reaches(ps[j], reps[a], dim) && reaches(ps[j], reps[b], dim) {
            let k1 = choose|k: int|
                0 <= k < 24 && is_symmetry(dim, k) && #[trigger] image(ps[j], dim, k) == reps[a];
            let k2 = choose|k: int|
                0 <= k < 24 && is_symmetry(dim, k) && #[trigger] image(ps[j], dim, k) == reps[b];
            let g1 = lemma_inverse_pose(dim, k1);
            lemma_image_inverse(ps[j].0, dim, k1, g1);
            assert(Bitset(ps[j].0) == ps[j]);
            assert(image(reps[a], dim, g1) == ps[j]);
            let k3 = lemma_image_compose(reps[a].0, dim, g1, k2);
            assert(Bitset(reps[a].0) == reps[a]);
            assert(image(reps[a], dim, k3) == reps[b]);
            lemma_orbit_apart(ps, dim, n, a, b, k3);
        }
    }
}

/// In a cube, a kept placement that no two rotations take to the same
/// placement has 24 members among the placements of its piece.
pub proof fn lemma_members_full(base: Seq<Coord>, dim: Coord, i: int)
    requires
        valid_dim(dim),
        base.len() > 0,
        crate::orientation::all_inside(base, dim),
        all_within(piece_placements(base, dim), dim),
        0 <= i < orbit_reps(
            piece_placements(base, dim),
            dim,
            piece_placements(base, dim).len() as int,
        ).len(),
        forall|k: int| 0 <= k < 24 ==> is_symmetry(dim, k),
        forall|j: int, a: int, b: int|
            0 <= j < piece_placements(base, dim).len() && 0 <= a < b < 24 ==> #[trigger] image(
                piece_placements(base, dim)[j],
                dim,
                a,
            ) != #[trigger] image(piece_placements(base, dim)[j], dim, b),
    ensures
        members(
            piece_placements(base, dim),
            orbit_reps(piece_placements(base, dim), dim, piece_placements(base, dim).len() as int)[i],
            dim,
            piece_placements(base, dim).len() as int,
        ) == 24,
{
    let ps = piece_placements(base, dim);
    let n = ps.len() as int;
    let reps = orbit_reps(ps, dim, n);
    let rep = reps[i];
    lemma_orbit_member(ps, dim, n, i);
    let j = choose|j: int| 0 <= j < n && #[trigger] ps[j] == reps[i];
    lemma_members_set(ps, rep, dim, n);
    let set = Set::new(|w: int| 0 <= w < n && reaches(ps[w], rep, dim));
    let class = class_of(ps, dim, j);
    assert(set =~= class) by {
        assert forall|w: int| set.contains(w) <==> class.contains(w) by {
            if 0 <= w < n {
                lemma_reaches_back(ps[w], rep, dim);
                if reaches(ps[w], rep, dim) {
                    let k = choose|k: int|
                        0 <= k < 24 && is_symmetry(dim, k) && #[trigger] image(rep, dim, k) == ps[w];
                    assert(ps[w] == image(ps[j], dim, k));
                }
                if class.contains(w) {
                    let k = choose|k: int|
                        0 <= k < 24 && is_symmetry(dim, k) && ps[w] == #[trigger] image(
                            ps[j],
                            dim,
                            k,
                        );
                    assert(image(rep, dim, k) == ps[w]);
                    assert(reaches(rep, ps[w], dim));
                }
            }
        }
    }
    assert forall|a: int, b: int| 0 <= a < b < 24 implies #[trigger] image(ps[j], dim, a)
        != #[trigger] image(ps[j], dim, b) by {}
    lemma_class_size(base, dim, j);
}

/// A placement has as many solutions as the starting arrangement of its class.
pub proof fn lemma_class_count(
    puzzle: Puzzle,
    pid: usize,
    rep: Bitset,
    start: Arrangement,
    single: Arrangement,
    pieces: Seq<usize>,
    sols: Seq<Arrangement>,
    all: Seq<Arrangement>,
)
    requires
        puzzle.wf(),
        all_generated(puzzle),
        start_of(puzzle, pid, rep, start),
        within(single.occupied.0, puzzle.full()),
        reaches(single.occupied, rep, puzzle.dim),
        searched(puzzle, start, pieces, sols),
        searched(puzzle, single, pieces, all),
    ensures
        all.len() == sols.len(),
{
    let dim = puzzle.dim;
    let k = choose|k: int|
        0 <= k < 24 && is_symmetry(dim, k) && #[trigger] image(single.occupied, dim, k) == rep;
    let kb = choose|kb: int|
        #![trigger image(rep, dim, kb)]
        {
            &&& crate::solver::best_upto(
                puzzle,
                other_pieces(puzzle.pieces@.len(), pid),
                rep,
                kb,
                24,
            )
            &&& start.occupied == image(rep, dim, kb)
            &&& start.placements@ == seq![(pid, image(rep, dim, kb))]
        };
    let k3 = lemma_image_compose(single.occupied.0, dim, k, kb);
    assert(Bitset(single.occupied.0) == single.occupied);
    lemma_turned_search_count(puzzle, single, start, pieces, all, sols, k3);
}

/// In a cube, where no two rotations take a placement of the first piece to
/// the same placement, the solutions counted over all placements of that
/// piece are 24 times the solutions counted over the starting arrangements.
pub proof fn lemma_symmetry_factor(
    puzzle: Puzzle,
    pid: usize,
    starts: Seq<Arrangement>,
    found: Seq<Seq<Arrangement>>,
    singles: Seq<Arrangement>,
    all: Seq<Seq<Arrangement>>,
)
    requires
        puzzle.wf(),
        all_generated(puzzle),
        constrained(puzzle, pid, starts),
        found.len() == starts.len(),
        forall|i: int|
            0 <= i < starts.len() ==> searched(
                puzzle,
                starts[i],
                other_pieces(puzzle.pieces@.len(), pid),
                #[trigger] found[i],
            ),
        singles.len() == puzzle.pieces@[pid as int].placements@.len(),
        all.len() == puzzle.pieces@[pid as int].placements@.len(),
        forall|j: int|
            0 <= j < singles.len() ==> (#[trigger] singles[j]).occupied
                == puzzle.pieces@[pid as int].placements@[j],
        forall|j: int|
            0 <= j < singles.len() ==> searched(
                puzzle,
                singles[j],
                other_pieces(puzzle.pieces@.len(), pid),
                #[trigger] all[j],
            ),
        forall|k: int| 0 <= k < 24 ==> is_symmetry(puzzle.dim, k),
        forall|j: int, a: int, b: int|
            0 <= j < puzzle.pieces@[pid as int].placements@.len() && 0 <= a < b < 24
                ==> #[trigger] image(puzzle.pieces@[pid as int].placements@[j], puzzle.dim, a)
                != #[trigger] image(puzzle.pieces@[pid as int].placements@[j], puzzle.dim, b),
    ensures
        total(lengths(all), all.len() as int) == 24 * total(lengths(found), found.len() as int),
{
    let dim = puzzle.dim;
    let ps = puzzle.pieces@[pid as int].placements@;
    let n = ps.len() as int;
    let reps = orbit_reps(ps, dim, n);
    let others = other_pieces(puzzle.pieces@.len(), pid);
    let base = puzzle.pieces@[pid as int].base@;
    let c = lengths(all);
    let d = lengths(found);
    assert(puzzle.pieces@[pid as int].generated(dim));
    assert forall|i: int| 0 <= i < ps.len() implies within(
        (#[trigger] ps[i]).0,
        full_mask(cell_count(dim)),
    ) by {
        assert(ps[i] == puzzle.placement(pid as int, i));
    }
    assert forall|j: int| 0 <= j < ps.len() implies #[trigger] belongs(ps, reps, dim, j) by {
        lemma_one_class(ps, dim, j);
    }
    assert forall|j: int| 0 <= j < ps.len() implies #[trigger] to_one(ps, reps, dim, j) by {
        lemma_one_class(ps, dim, j);
    }
    assert forall|j: int| 0 <= j < ps.len() implies #[trigger] agrees(c, d, ps, reps, dim, j) by {
        assert forall|i: int|
            0 <= i < reps.len() && reaches(ps[j], #[trigger] reps[i], dim) implies c[j] == d[i] by {
            assert(start_of(puzzle, pid, reps[i], starts[i]));
            assert(searched(puzzle, starts[i], others, found[i]));
            assert(searched(puzzle, singles[j], others, all[j]));
            lemma_class_count(puzzle, pid, reps[i], starts[i], singles[j], others, found[i], all[j]);
        }
    }
    lemma_total_weighted(c, d, ps, reps, dim, n);
    assert forall|i: int| 0 <= i < reps.len() implies members(ps, #[trigger] reps[i], dim, n) == 24 by {
        lemma_members_full(base, dim, i);
    }
    lemma_weighted_full(d, ps, reps, dim, n, reps.len() as int);
}

} // verus!
