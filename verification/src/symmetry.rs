//! Rotations of the cuboid and the completions of a board: a rotation takes
//! every completion of a board to a completion of the turned board.

use vstd::prelude::*;
use crate::bitset::{
    bit, full_mask, within, Bitset, lemma_bit_and, lemma_bit_full, lemma_bit_or, lemma_bit_zero,
    lemma_bits_equal, lemma_intersects_has, lemma_nonzero_has_bit,
};
use crate::coord::{cell_count, valid_dim, Coord, lemma_dim_bounds, lemma_index_bound, lemma_index_injective};
use crate::orientation::{
    all_inside, cell_of, image, is_symmetry, pose, lemma_image_bits, lemma_index_of_cell, lemma_pose,
};
use crate::piece::{no_repeats, piece_placements, lemma_piece_placements_no_repeats};
use vstd::relations::injective_on;
use vstd::set_lib::{lemma_int_range, lemma_len_subset, lemma_map_size, set_int_range};
use crate::count::{lemma_same_tiling, lemma_tiling_completion};
use crate::puzzle::{Arrangement, Puzzle};
use crate::rotation::{
    identity, inverse, rot_of, lemma_inverse, lemma_inverse_pose, lemma_inverse_pose_cell,
    lemma_placements_turn, lemma_pose_is_rot, lemma_rot_table,
};
use crate::solver::{
    distinct, found, is_completion, is_tiling, meets_orbit, orbit_reps, realises, searched, solves,
    tail, union_choice,
};

verus! {

/// Each chosen placement turned by pose `r`.
pub open spec fn turned_choice(choice: Seq<Bitset>, dim: Coord, r: int) -> Seq<Bitset> {
    Seq::new(choice.len(), |k: int| image(choice[k], dim, r))
}

/// Every piece of the puzzle has the placement set of its base pose.
pub open spec fn all_generated(puzzle: Puzzle) -> bool {
    forall|pid: int|
        0 <= pid < puzzle.pieces@.len() ==> (#[trigger] puzzle.pieces@[pid]).generated(puzzle.dim)
}

/// Two cell sets that share no cell share no cell after a rotation of the
/// cuboid.
pub proof fn lemma_image_disjoint(a: u64, b: u64, dim: Coord, r: int)
    requires
        valid_dim(dim),
        0 <= r < 24,
        is_symmetry(dim, r),
        a & b == 0,
    ensures
        image(Bitset(a), dim, r).0 & image(Bitset(b), dim, r).0 == 0,
{
    let n = cell_count(dim);
    let ia = image(Bitset(a), dim, r).0;
    let ib = image(Bitset(b), dim, r).0;
    if ia & ib != 0 {
        let q = lemma_nonzero_has_bit(ia & ib);
        lemma_bit_and(ia, ib, q);
        lemma_image_bits(a, dim, r, n, q);
        lemma_image_bits(b, dim, r, n, q);
        let m1 = choose|m: int|
            0 <= m < n && #[trigger] bit(a, m) && pose(cell_of(m, dim), dim, r).index(dim) == q;
        let m2 = choose|m: int|
            0 <= m < n && #[trigger] bit(b, m) && pose(cell_of(m, dim), dim, r).index(dim) == q;
        let c1 = cell_of(m1, dim);
        let c2 = cell_of(m2, dim);
        lemma_index_of_cell(m1, dim);
        lemma_index_of_cell(m2, dim);
        lemma_pose(c1, c2, dim, r);
        lemma_pose(c2, c2, dim, r);
        lemma_index_injective(pose(c1, dim, r), pose(c2, dim, r), dim);
        assert(m1 == m2);
        lemma_intersects_has(Bitset(a), Bitset(b), m1);
    }
}

/// The image of a union is the union of the images.
pub proof fn lemma_image_or(a: u64, b: u64, dim: Coord, r: int)
    requires
        valid_dim(dim),
        0 <= r < 24,
        is_symmetry(dim, r),
    ensures
        image(Bitset(a | b), dim, r).0 == image(Bitset(a), dim, r).0 | image(Bitset(b), dim, r).0,
{
    let n = cell_count(dim);
    let ia = image(Bitset(a), dim, r).0;
    let ib = image(Bitset(b), dim, r).0;
    let iu = image(Bitset(a | b), dim, r).0;
    assert forall|q: int| 0 <= q < 64 implies bit(iu, q) == bit(ia | ib, q) by {
        lemma_bit_or(ia, ib, q);
        lemma_image_bits(a, dim, r, n, q);
        lemma_image_bits(b, dim, r, n, q);
        lemma_image_bits(a | b, dim, r, n, q);
        if bit(iu, q) {
            let m = choose|m: int|
                0 <= m < n && #[trigger] bit(a | b, m) && pose(cell_of(m, dim), dim, r).index(dim)
                    == q;
            lemma_bit_or(a, b, m);
            if bit(a, m) {
                assert(bit(ia, q));
            } else {
                assert(bit(b, m));
                assert(bit(ib, q));
            }
        }
        if bit(ia, q) {
            let m = choose|m: int|
                0 <= m < n && #[trigger] bit(a, m) && pose(cell_of(m, dim), dim, r).index(dim) == q;
            lemma_bit_or(a, b, m);
            assert(bit(a | b, m));
        }
        if bit(ib, q) {
            let m = choose|m: int|
                0 <= m < n && #[trigger] bit(b, m) && pose(cell_of(m, dim), dim, r).index(dim) == q;
            lemma_bit_or(a, b, m);
            assert(bit(a | b, m));
        }
    }
    lemma_bits_equal(iu, ia | ib);
}

/// The image of the empty set is empty, and the image of the full board is the
/// full board.
pub proof fn lemma_image_ends(dim: Coord, r: int)
    requires
        valid_dim(dim),
        0 <= r < 24,
        is_symmetry(dim, r),
    ensures
        image(Bitset(0), dim, r).0 == 0,
        image(Bitset(full_mask(cell_count(dim))), dim, r).0 == full_mask(cell_count(dim)),
{
    let n = cell_count(dim);
    let full = full_mask(n);
    lemma_dim_bounds(dim);
    let g = lemma_inverse_pose(dim, r);
    assert forall|q: int| 0 <= q < 64 implies bit(image(Bitset(0), dim, r).0, q) == bit(0, q) by {
        lemma_image_bits(0, dim, r, n, q);
        lemma_bit_zero(q);
        if bit(image(Bitset(0), dim, r).0, q) {
            let m = choose|m: int|
                0 <= m < n && #[trigger] bit(0u64, m) && pose(cell_of(m, dim), dim, r).index(dim) == q;
            lemma_bit_zero(m);
        }
    }
    lemma_bits_equal(image(Bitset(0), dim, r).0, 0);
    assert forall|q: int| 0 <= q < 64 implies bit(image(Bitset(full), dim, r).0, q) == bit(
        full,
        q,
    ) by {
        lemma_image_bits(full, dim, r, n, q);
        lemma_bit_full(n, q);
        if bit(image(Bitset(full), dim, r).0, q) {
            let m = choose|m: int|
                0 <= m < n && #[trigger] bit(full, m) && pose(cell_of(m, dim), dim, r).index(dim)
                    == q;
            lemma_index_of_cell(m, dim);
            lemma_pose(cell_of(m, dim), cell_of(m, dim), dim, r);
            lemma_index_bound(pose(cell_of(m, dim), dim, r), dim);
        }
        if q < n {
            let c = cell_of(q, dim);
            lemma_index_of_cell(q, dim);
            lemma_inverse_pose_cell(c, dim, r, g);
            let back = pose(c, dim, g);
            let m = back.index(dim);
            lemma_index_bound(back, dim);
            crate::orientation::lemma_cell_of_index(back, dim);
            lemma_bit_full(n, m);
            assert(bit(full, m) && pose(cell_of(m, dim), dim, r).index(dim) == q);
        }
    }
    lemma_bits_equal(image(Bitset(full), dim, r).0, full);
}

/// The image of the union of a choice is the union of the turned choice.
pub proof fn lemma_union_turn(choice: Seq<Bitset>, dim: Coord, r: int, n: int)
    requires
        valid_dim(dim),
        0 <= r < 24,
        is_symmetry(dim, r),
        0 <= n <= choice.len(),
    ensures
        image(Bitset(union_choice(choice, n)), dim, r).0 == union_choice(
            turned_choice(choice, dim, r),
            n,
        ),
    decreases n,
{
    if n <= 0 {
        lemma_image_ends(dim, r);
    } else {
        lemma_union_turn(choice, dim, r, n - 1);
        lemma_image_or(union_choice(choice, n - 1), choice[n - 1].0, dim, r);
        assert(turned_choice(choice, dim, r)[n - 1] == image(choice[n - 1], dim, r));
        assert(Bitset(choice[n - 1].0) == choice[n - 1]);
    }
}

/// A rotation of the cuboid takes every completion of a board to a completion
/// of the turned board: the turned placements are placements of the same
/// pieces, miss the turned board and each other, and fill the cuboid with it.
pub proof fn lemma_completion_turn(
    puzzle: Puzzle,
    board: u64,
    pieces: Seq<usize>,
    choice: Seq<Bitset>,
    r: int,
)
    requires
        valid_dim(puzzle.dim),
        all_generated(puzzle),
        is_completion(puzzle, board, pieces, choice),
        0 <= r < 24,
        is_symmetry(puzzle.dim, r),
    ensures
        is_completion(
            puzzle,
            image(Bitset(board), puzzle.dim, r).0,
            pieces,
            turned_choice(choice, puzzle.dim, r),
        ),
{
    let dim = puzzle.dim;
    let turned = turned_choice(choice, dim, r);
    let b2 = image(Bitset(board), dim, r).0;
    assert forall|k: int| 0 <= k < pieces.len() implies puzzle.offers(pieces[k], #[trigger] turned[k])
        && b2 & turned[k].0 == 0 by {
        assert(puzzle.offers(pieces[k], choice[k]));
        let pid = pieces[k] as int;
        let j = choose|j: int|
            0 <= j < puzzle.pieces@[pid].placements@.len() && #[trigger] puzzle.placement(pid, j)
                == choice[k];
        assert(puzzle.pieces@[pid].generated(dim));
        let w = lemma_placements_turn(puzzle.pieces@[pid].base@, dim, j, r);
        assert(puzzle.placement(pid, w) == turned[k]);
        lemma_image_disjoint(board, choice[k].0, dim, r);
        assert(Bitset(choice[k].0) == choice[k]);
    }
    assert forall|a: int, b: int| 0 <= a < b < turned.len() implies (#[trigger] turned[a]).0 & (
    #[trigger] turned[b]).0 == 0 by {
        assert(choice[a].0 & choice[b].0 == 0);
        lemma_image_disjoint(choice[a].0, choice[b].0, dim, r);
        assert(Bitset(choice[a].0) == choice[a] && Bitset(choice[b].0) == choice[b]);
    }
    let n = choice.len() as int;
    lemma_union_turn(choice, dim, r, n);
    lemma_image_or(board, union_choice(choice, n), dim, r);
    lemma_image_ends(dim, r);
}

/// A cell set of the cuboid, turned by a rotation of the cuboid and then by the
/// rotation that undoes it, is the cell set.
pub proof fn lemma_image_inverse(b: u64, dim: Coord, r: int, g: int)
    requires
        valid_dim(dim),
        0 <= r < 24,
        0 <= g < 24,
        is_symmetry(dim, r),
        is_symmetry(dim, g),
        rot_of(g) == inverse(rot_of(r)),
        within(b, full_mask(cell_count(dim))),
    ensures
        image(image(Bitset(b), dim, r), dim, g).0 == b,
{
    let n = cell_count(dim);
    let once = image(Bitset(b), dim, r).0;
    let twice = image(image(Bitset(b), dim, r), dim, g).0;
    lemma_dim_bounds(dim);
    assert forall|q: int| 0 <= q < 64 implies bit(twice, q) == bit(b, q) by {
        lemma_image_bits(once, dim, g, n, q);
        if bit(twice, q) {
            let m = choose|m: int|
                0 <= m < n && #[trigger] bit(once, m) && pose(cell_of(m, dim), dim, g).index(dim)
                    == q;
            lemma_image_bits(b, dim, r, n, m);
            let m0 = choose|m0: int|
                0 <= m0 < n && #[trigger] bit(b, m0) && pose(cell_of(m0, dim), dim, r).index(dim)
                    == m;
            let c = cell_of(m0, dim);
            lemma_index_of_cell(m0, dim);
            lemma_inverse_pose_cell(c, dim, r, g);
            crate::orientation::lemma_cell_of_index(pose(c, dim, r), dim);
            assert(q == m0);
        }
        if bit(b, q) {
            crate::bitset::lemma_within_bit(b, full_mask(n), q);
            lemma_bit_full(n, q);
            let c = cell_of(q, dim);
            lemma_index_of_cell(q, dim);
            lemma_inverse_pose_cell(c, dim, r, g);
            let m = pose(c, dim, r).index(dim);
            lemma_index_bound(pose(c, dim, r), dim);
            crate::orientation::lemma_cell_of_index(pose(c, dim, r), dim);
            lemma_image_bits(b, dim, r, n, m);
            assert(bit(once, m));
        }
    }
    lemma_bits_equal(twice, b);
}

/// Each entry of a tiling that realises a choice is a piece with its chosen
/// placement.
pub proof fn lemma_realised_entry(
    puzzle: Puzzle,
    board: u64,
    pieces: Seq<usize>,
    ext: Seq<(usize, Bitset)>,
    choice: Seq<Bitset>,
    t: int,
) -> (k: int)
    requires
        is_tiling(puzzle, board, pieces, ext),
        realises(ext, pieces, choice),
        0 <= t < ext.len(),
    ensures
        0 <= k < pieces.len(),
        ext[t] == (pieces[k], choice[k]),
{
    assert(pieces.contains(ext[t].0));
    let k = choose|k: int| 0 <= k < pieces.len() && pieces[k] == ext[t].0;
    assert(ext.contains((pieces[k], choice[k])));
    let u = choose|u: int| 0 <= u < ext.len() && ext[u] == (pieces[k], choice[k]);
    if u != t {
        if u < t {
            assert(ext[u].0 != ext[t].0);
        } else {
            assert(ext[t].0 != ext[u].0);
        }
    }
    k
}

/// A tiling realises one choice only.
pub proof fn lemma_realised_unique(
    puzzle: Puzzle,
    board: u64,
    pieces: Seq<usize>,
    ext: Seq<(usize, Bitset)>,
    c1: Seq<Bitset>,
    c2: Seq<Bitset>,
)
    requires
        is_tiling(puzzle, board, pieces, ext),
        realises(ext, pieces, c1),
        realises(ext, pieces, c2),
        c1.len() == pieces.len(),
        c2.len() == pieces.len(),
    ensures
        c1 == c2,
{
    assert forall|k: int| 0 <= k < pieces.len() implies c1[k] == c2[k] by {
        assert(ext.contains((pieces[k], c1[k])));
        assert(ext.contains((pieces[k], c2[k])));
        let u = choose|u: int| 0 <= u < ext.len() && ext[u] == (pieces[k], c1[k]);
        let v = choose|v: int| 0 <= v < ext.len() && ext[v] == (pieces[k], c2[k]);
        if u < v {
            assert(ext[u].0 != ext[v].0);
        }
        if v < u {
            assert(ext[v].0 != ext[u].0);
        }
    }
    assert(c1 =~= c2);
}

/// Solution `s2` of the turned board places the pieces as solution `s1` of the
/// board does, turned.
pub open spec fn carries(
    puzzle: Puzzle,
    board: u64,
    pieces: Seq<usize>,
    n1: int,
    n2: int,
    r: int,
    s1: Arrangement,
    s2: Arrangement,
) -> bool {
    exists|choice: Seq<Bitset>|
        #[trigger] is_completion(puzzle, board, pieces, choice) && realises(
            tail(s1, n1),
            pieces,
            choice,
        ) && realises(tail(s2, n2), pieces, turned_choice(choice, puzzle.dim, r))
}

/// Every solution of the board has a solution of the turned board that places
/// the pieces as it does, turned.
proof fn lemma_carry_exists(
    puzzle: Puzzle,
    start: Arrangement,
    start2: Arrangement,
    pieces: Seq<usize>,
    sols1: Seq<Arrangement>,
    sols2: Seq<Arrangement>,
    r: int,
    i: int,
) -> (j: int)
    requires
        valid_dim(puzzle.dim),
        all_generated(puzzle),
        0 <= r < 24,
        is_symmetry(puzzle.dim, r),
        start2.occupied == image(start.occupied, puzzle.dim, r),
        searched(puzzle, start, pieces, sols1),
        searched(puzzle, start2, pieces, sols2),
        0 <= i < sols1.len(),
    ensures
        0 <= j < sols2.len(),
        carries(
            puzzle,
            start.occupied.0,
            pieces,
            start.placements@.len() as int,
            start2.placements@.len() as int,
            r,
            sols1[i],
            sols2[j],
        ),
{
    let board = start.occupied.0;
    let n1 = start.placements@.len() as int;
    let n2 = start2.placements@.len() as int;
    assert(solves(puzzle, start.placements@, board, pieces, sols1[i]));
    let choice = lemma_tiling_completion(puzzle, board, pieces, tail(sols1[i], n1));
    lemma_completion_turn(puzzle, board, pieces, choice, r);
    assert(Bitset(board) == start.occupied);
    let turned = turned_choice(choice, puzzle.dim, r);
    assert(is_completion(puzzle, start2.occupied.0, pieces, turned));
    assert(found(sols2, 0, n2, pieces, turned));
    let j = choose|j: int|
        0 <= j < sols2.len() && realises(tail(#[trigger] sols2[j], n2), pieces, turned);
    assert(is_completion(puzzle, board, pieces, choice) && realises(
        tail(sols1[i], n1),
        pieces,
        choice,
    ) && realises(tail(sols2[j], n2), pieces, turned_choice(choice, puzzle.dim, r)));
    j
}

/// Two solutions of the board that one solution of the turned board carries
/// are the same stack.
proof fn lemma_carry_injective(
    puzzle: Puzzle,
    start: Arrangement,
    start2: Arrangement,
    pieces: Seq<usize>,
    r: int,
    a: Arrangement,
    b: Arrangement,
    s2: Arrangement,
)
    requires
        puzzle.wf(),
        0 <= r < 24,
        is_symmetry(puzzle.dim, r),
        solves(puzzle, start.placements@, start.occupied.0, pieces, a),
        solves(puzzle, start.placements@, start.occupied.0, pieces, b),
        solves(puzzle, start2.placements@, start2.occupied.0, pieces, s2),
        carries(
            puzzle,
            start.occupied.0,
            pieces,
            start.placements@.len() as int,
            start2.placements@.len() as int,
            r,
            a,
            s2,
        ),
        carries(
            puzzle,
            start.occupied.0,
            pieces,
            start.placements@.len() as int,
            start2.placements@.len() as int,
            r,
            b,
            s2,
        ),
    ensures
        a.placements@ == b.placements@,
{
    let dim = puzzle.dim;
    let board = start.occupied.0;
    let n1 = start.placements@.len() as int;
    let n2 = start2.placements@.len() as int;
    let ca = choose|choice: Seq<Bitset>|
        #[trigger] is_completion(puzzle, board, pieces, choice) && realises(
            tail(a, n1),
            pieces,
            choice,
        ) && realises(tail(s2, n2), pieces, turned_choice(choice, dim, r));
    let cb = choose|choice: Seq<Bitset>|
        #[trigger] is_completion(puzzle, board, pieces, choice) && realises(
            tail(b, n1),
            pieces,
            choice,
        ) && realises(tail(s2, n2), pieces, turned_choice(choice, dim, r));
    lemma_realised_unique(
        puzzle,
        start2.occupied.0,
        pieces,
        tail(s2, n2),
        turned_choice(ca, dim, r),
        turned_choice(cb, dim, r),
    );
    let g = lemma_inverse_pose(dim, r);
    assert forall|k: int| 0 <= k < pieces.len() implies ca[k] == cb[k] by {
        assert(turned_choice(ca, dim, r)[k] == turned_choice(cb, dim, r)[k]);
        assert(puzzle.offers(pieces[k], ca[k]) && puzzle.offers(pieces[k], cb[k]));
        let ja = choose|j: int|
            0 <= j < puzzle.pieces@[pieces[k] as int].placements@.len() && #[trigger] puzzle.placement(
                pieces[k] as int,
                j,
            ) == ca[k];
        let jb = choose|j: int|
            0 <= j < puzzle.pieces@[pieces[k] as int].placements@.len() && #[trigger] puzzle.placement(
                pieces[k] as int,
                j,
            ) == cb[k];
        lemma_image_inverse(ca[k].0, dim, r, g);
        lemma_image_inverse(cb[k].0, dim, r, g);
        assert(Bitset(ca[k].0) == ca[k] && Bitset(cb[k].0) == cb[k]);
    }
    assert(ca =~= cb);
    let ea = tail(a, n1);
    let eb = tail(b, n1);
    assert forall|t: int| 0 <= t < ea.len() implies eb.contains(#[trigger] ea[t]) by {
        let k = lemma_realised_entry(puzzle, board, pieces, ea, ca, t);
        assert(eb.contains((pieces[k], cb[k])));
    }
    lemma_same_tiling(puzzle, board, pieces, ea, eb);
    let x = a.placements@;
    let y = b.placements@;
    assert(x =~= y) by {
        assert forall|w: int| 0 <= w < x.len() implies x[w] == y[w] by {
            if w < n1 {
                assert(x.subrange(0, n1)[w] == y.subrange(0, n1)[w]);
            } else {
                assert(ea[w - n1] == eb[w - n1]);
            }
        }
    }
}

/// The board has no more solutions than the turned board.
proof fn lemma_turned_at_most(
    puzzle: Puzzle,
    start: Arrangement,
    start2: Arrangement,
    pieces: Seq<usize>,
    sols1: Seq<Arrangement>,
    sols2: Seq<Arrangement>,
    r: int,
)
    requires
        puzzle.wf(),
        all_generated(puzzle),
        0 <= r < 24,
        is_symmetry(puzzle.dim, r),
        start2.occupied == image(start.occupied, puzzle.dim, r),
        searched(puzzle, start, pieces, sols1),
        searched(puzzle, start2, pieces, sols2),
    ensures
        sols1.len() <= sols2.len(),
{
    let board = start.occupied.0;
    let n1 = start.placements@.len() as int;
    let n2 = start2.placements@.len() as int;
    let f = |i: int|
        choose|j: int|
            0 <= j < sols2.len() && carries(puzzle, board, pieces, n1, n2, r, sols1[i], sols2[j]);
    let from = set_int_range(0, sols1.len() as int);
    let to = set_int_range(0, sols2.len() as int);
    lemma_int_range(0, sols1.len() as int);
    lemma_int_range(0, sols2.len() as int);
    assert forall|i: int| from.contains(i) implies 0 <= #[trigger] f(i) < sols2.len() && carries(
        puzzle,
        board,
        pieces,
        n1,
        n2,
        r,
        sols1[i],
        sols2[f(i)],
    ) by {
        let j = lemma_carry_exists(puzzle, start, start2, pieces, sols1, sols2, r, i);
    }
    assert(injective_on(f, from)) by {
        assert forall|a: int, b: int|
            from.contains(a) && from.contains(b) && #[trigger] f(a) == #[trigger] f(b) implies a
            == b by {
            assert(solves(puzzle, start.placements@, board, pieces, sols1[a]));
            assert(solves(puzzle, start.placements@, board, pieces, sols1[b]));
            assert(solves(puzzle, start2.placements@, start2.occupied.0, pieces, sols2[f(a)]));
            lemma_carry_injective(puzzle, start, start2, pieces, r, sols1[a], sols1[b], sols2[f(a)]);
            if a < b {
                assert(distinct(sols1, 0));
            }
            if b < a {
                assert(distinct(sols1, 0));
            }
        }
    }
    let img = from.map(f);
    lemma_map_size(from, img, f);
    assert(img.subset_of(to)) by {
        assert forall|j: int| img.contains(j) implies to.contains(j) by {
            let i = choose|i: int| from.contains(i) && j == f(i);
            assert(0 <= f(i) < sols2.len());
        }
    }
    lemma_len_subset(img, to);
}

/// A board and the board turned by a rotation of the cuboid have the same
/// number of solutions: this is why the search may start from one placement
/// of each class under the rotations of the cuboid.
pub proof fn lemma_turned_search_count(
    puzzle: Puzzle,
    start: Arrangement,
    start2: Arrangement,
    pieces: Seq<usize>,
    sols1: Seq<Arrangement>,
    sols2: Seq<Arrangement>,
    r: int,
)
    requires
        puzzle.wf(),
        all_generated(puzzle),
        0 <= r < 24,
        is_symmetry(puzzle.dim, r),
        within(start.occupied.0, puzzle.full()),
        start2.occupied == image(start.occupied, puzzle.dim, r),
        searched(puzzle, start, pieces, sols1),
        searched(puzzle, start2, pieces, sols2),
    ensures
        sols1.len() == sols2.len(),
{
    lemma_turned_at_most(puzzle, start, start2, pieces, sols1, sols2, r);
    let g = lemma_inverse_pose(puzzle.dim, r);
    lemma_image_inverse(start.occupied.0, puzzle.dim, r, g);
    assert(Bitset(start.occupied.0) == start.occupied);
    assert(image(start2.occupied, puzzle.dim, g).0 == start.occupied.0);
    lemma_turned_at_most(puzzle, start2, start, pieces, sols2, sols1, g);
}

/// The first of the 24 poses leaves every cell set of the cuboid as it is.
pub proof fn lemma_image_identity(b: u64, dim: Coord)
    requires
        valid_dim(dim),
        within(b, full_mask(cell_count(dim))),
    ensures
        is_symmetry(dim, 0),
        image(Bitset(b), dim, 0).0 == b,
{
    let n = cell_count(dim);
    lemma_dim_bounds(dim);
    lemma_rot_table();
    assert(rot_of(0) == crate::rotation::table(0)) by {
        reveal_with_fuel(crate::rotation::quarters, 4);
    }
    assert(rot_of(0) == identity());
    let origin = Coord { x: 0, y: 0, z: 0 };
    lemma_pose_is_rot(origin, dim, 0);
    lemma_inverse(rot_of(0), origin, dim);
    assert(is_symmetry(dim, 0));
    assert forall|q: int| 0 <= q < 64 implies bit(image(Bitset(b), dim, 0).0, q) == bit(b, q) by {
        lemma_image_bits(b, dim, 0, n, q);
        if bit(image(Bitset(b), dim, 0).0, q) {
            let m = choose|m: int|
                0 <= m < n && #[trigger] bit(b, m) && pose(cell_of(m, dim), dim, 0).index(dim) == q;
            let c = cell_of(m, dim);
            lemma_index_of_cell(m, dim);
            lemma_pose_is_rot(c, dim, 0);
            lemma_inverse(rot_of(0), c, dim);
        }
        if bit(b, q) {
            crate::bitset::lemma_within_bit(b, full_mask(n), q);
            lemma_bit_full(n, q);
            let c = cell_of(q, dim);
            lemma_index_of_cell(q, dim);
            lemma_pose_is_rot(c, dim, 0);
            lemma_inverse(rot_of(0), c, dim);
        }
    }
    lemma_bits_equal(image(Bitset(b), dim, 0).0, b);
}

/// Every one of the first `n` placements is taken by a rotation of the cuboid
/// to one of the placements kept for them.
pub proof fn lemma_orbit_covered(ps: Seq<Bitset>, dim: Coord, n: int, j: int) -> (res: (int, int))
    requires
        valid_dim(dim),
        0 <= j < n <= ps.len(),
        forall|i: int| 0 <= i < ps.len() ==> within((#[trigger] ps[i]).0, full_mask(cell_count(dim))),
    ensures
        0 <= res.0 < orbit_reps(ps, dim, n).len(),
        0 <= res.1 < 24,
        is_symmetry(dim, res.1),
        image(ps[j], dim, res.1) == orbit_reps(ps, dim, n)[res.0],
    decreases n,
{
    let rest = orbit_reps(ps, dim, n - 1);
    if j == n - 1 {
        if meets_orbit(rest, ps[n - 1], dim) {
            let (k, i) = choose|k: int, i: int|
                0 <= k < 24 && is_symmetry(dim, k) && 0 <= i < rest.len() && #[trigger] rest[i]
                    == #[trigger] image(ps[n - 1], dim, k);
            (i, k)
        } else {
            lemma_image_identity(ps[j].0, dim);
            assert(Bitset(ps[j].0) == ps[j]);
            (rest.len() as int, 0)
        }
    } else {
        lemma_orbit_covered(ps, dim, n - 1, j)
    }
}

/// No rotation of the cuboid takes a kept placement to one kept before it, nor
/// one kept before it to it.
pub proof fn lemma_orbit_apart(ps: Seq<Bitset>, dim: Coord, n: int, a: int, b: int, k: int)
    requires
        valid_dim(dim),
        0 <= n <= ps.len(),
        0 <= a < b < orbit_reps(ps, dim, n).len(),
        0 <= k < 24,
        is_symmetry(dim, k),
        forall|i: int| 0 <= i < ps.len() ==> within((#[trigger] ps[i]).0, full_mask(cell_count(dim))),
    ensures
        image(orbit_reps(ps, dim, n)[b], dim, k) != orbit_reps(ps, dim, n)[a],
        image(orbit_reps(ps, dim, n)[a], dim, k) != orbit_reps(ps, dim, n)[b],
    decreases n,
{
    if n > 0 {
        let rest = orbit_reps(ps, dim, n - 1);
        let reps = orbit_reps(ps, dim, n);
        if b < rest.len() {
            lemma_orbit_apart(ps, dim, n - 1, a, b, k);
        } else {
            assert(reps[b] == ps[n - 1] && reps[a] == rest[a]);
            assert(!meets_orbit(rest, ps[n - 1], dim));
            if image(reps[b], dim, k) == reps[a] {
                assert(rest[a] == image(ps[n - 1], dim, k));
            }
            if image(reps[a], dim, k) == reps[b] {
                let g = lemma_inverse_pose(dim, k);
                lemma_orbit_member(ps, dim, n - 1, a);
                lemma_image_inverse(reps[a].0, dim, k, g);
                assert(Bitset(reps[a].0) == reps[a]);
                assert(rest[a] == image(ps[n - 1], dim, g));
            }
        }
    }
}

/// Every kept placement is one of the placements.
pub proof fn lemma_orbit_member(ps: Seq<Bitset>, dim: Coord, n: int, a: int)
    requires
        0 <= n <= ps.len(),
        0 <= a < orbit_reps(ps, dim, n).len(),
    ensures
        exists|j: int| 0 <= j < n && #[trigger] ps[j] == orbit_reps(ps, dim, n)[a],
    decreases n,
{
    if n > 0 {
        let rest = orbit_reps(ps, dim, n - 1);
        if a < rest.len() {
            lemma_orbit_member(ps, dim, n - 1, a);
            let j = choose|j: int| 0 <= j < n - 1 && #[trigger] ps[j] == rest[a];
            assert(0 <= j < n && ps[j] == orbit_reps(ps, dim, n)[a]);
        } else {
            assert(ps[n - 1] == orbit_reps(ps, dim, n)[a]);
        }
    }
}

/// The placements of a piece that the rotations of the cuboid make of its
/// placement `j`, by their indices.
pub open spec fn class_of(ps: Seq<Bitset>, dim: Coord, j: int) -> Set<int> {
    Set::new(
        |w: int|
            0 <= w < ps.len() && exists|k: int|
                0 <= k < 24 && is_symmetry(dim, k) && ps[w] == #[trigger] image(ps[j], dim, k),
    )
}

/// In a cube, a placement that no two rotations take to the same placement
/// stands for a class of 24 placements of its piece.
pub proof fn lemma_class_size(base: Seq<Coord>, dim: Coord, j: int)
    requires
        valid_dim(dim),
        base.len() > 0,
        all_inside(base, dim),
        0 <= j < piece_placements(base, dim).len(),
        forall|k: int| 0 <= k < 24 ==> is_symmetry(dim, k),
        forall|a: int, b: int|
            0 <= a < b < 24 ==> #[trigger] image(piece_placements(base, dim)[j], dim, a)
                != #[trigger] image(piece_placements(base, dim)[j], dim, b),
    ensures
        class_of(piece_placements(base, dim), dim, j).finite(),
        class_of(piece_placements(base, dim), dim, j).len() == 24,
{
    let ps = piece_placements(base, dim);
    lemma_piece_placements_no_repeats(base, dim);
    let f = |k: int| choose|w: int| 0 <= w < ps.len() && ps[w] == image(ps[j], dim, k);
    let from = set_int_range(0, 24);
    lemma_int_range(0, 24);
    assert forall|k: int| from.contains(k) implies 0 <= #[trigger] f(k) < ps.len() && ps[f(k)]
        == image(ps[j], dim, k) by {
        let w = lemma_placements_turn(base, dim, j, k);
    }
    assert(injective_on(f, from)) by {
        assert forall|a: int, b: int|
            from.contains(a) && from.contains(b) && #[trigger] f(a) == #[trigger] f(b) implies a
            == b by {
            assert(image(ps[j], dim, a) == image(ps[j], dim, b));
        }
    }
    let class = class_of(ps, dim, j);
    assert(from.map(f) =~= class) by {
        assert forall|w: int| from.map(f).contains(w) implies class.contains(w) by {
            let k = choose|k: int| from.contains(k) && w == f(k);
            assert(ps[w] == image(ps[j], dim, k));
        }
        assert forall|w: int| class.contains(w) implies from.map(f).contains(w) by {
            let k = choose|k: int|
                0 <= k < 24 && is_symmetry(dim, k) && ps[w] == #[trigger] image(ps[j], dim, k);
            assert(from.contains(k));
            assert(ps[f(k)] == ps[w]);
            if f(k) < w {
                assert(no_repeats(ps));
            }
            if w < f(k) {
                assert(no_repeats(ps));
            }
            assert(w == f(k));
        }
    }
    lemma_map_size(from, class, f);
}

} // verus!
