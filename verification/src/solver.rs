//! The pruner and the backtracking search.

use vstd::prelude::*;
use crate::bitset::{
    bit, single, within, Bitset, Board, Placement, lemma_and_comm, lemma_bit_full,
    lemma_bit_meets_single, lemma_bit_or, lemma_disjoint_or, lemma_or_laws, lemma_within_both,
    lemma_within_grow, lemma_within_or,
};
use crate::coord::{cell_count, valid_dim, Coord, lemma_dim_bounds};
use crate::orientation::{image, is_symmetry, Orientation};
use crate::puzzle::{Arrangement, Puzzle};

verus! {

/// The exhaustive solver.
pub struct Solver {}

/// Every listed piece is a piece of the puzzle.
pub open spec fn ids_in_range(puzzle: Puzzle, pieces: Seq<usize>) -> bool {
    forall|k: int| 0 <= k < pieces.len() ==> (#[trigger] pieces[k]) < puzzle.pieces@.len()
}

/// Every listed piece is a piece of the puzzle, and none is listed twice.
pub open spec fn ids_ok(puzzle: Puzzle, pieces: Seq<usize>) -> bool {
    &&& ids_in_range(puzzle, pieces)
    &&& forall|a: int, b: int| 0 <= a < b < pieces.len() ==> pieces[a] != pieces[b]
}

/// The union of those of the first `n` placements that miss the board.
pub open spec fn piece_cover(ps: Seq<Bitset>, board: u64, n: int) -> u64
    decreases n,
{
    if n <= 0 {
        0
    } else if ps[n - 1].0 & board == 0 {
        piece_cover(ps, board, n - 1) | ps[n - 1].0
    } else {
        piece_cover(ps, board, n - 1)
    }
}

/// The board together with every placement of the first `n` listed pieces that
/// misses the board.
pub open spec fn cover(puzzle: Puzzle, board: u64, pieces: Seq<usize>, n: int) -> u64
    decreases n,
{
    if n <= 0 {
        board
    } else {
        let ps = puzzle.pieces@[pieces[n - 1] as int].placements@;
        cover(puzzle, board, pieces, n - 1) | piece_cover(ps, board, ps.len() as int)
    }
}

/// Whether the piece has a placement that misses the board.
pub open spec fn fits_somewhere(puzzle: Puzzle, board: u64, pid: usize) -> bool {
    exists|j: int|
        0 <= j < puzzle.pieces@[pid as int].placements@.len() && (#[trigger] puzzle.placement(
            pid as int,
            j,
        )).0 & board == 0
}

/// Whether every listed piece has a placement that misses the board.
pub open spec fn all_fit(puzzle: Puzzle, board: u64, pieces: Seq<usize>) -> bool {
    forall|k: int| 0 <= k < pieces.len() ==> fits_somewhere(puzzle, board, #[trigger] pieces[k])
}

/// How many of the first `n` placements miss the board and hold the cell.
pub open spec fn piece_count(ps: Seq<Bitset>, board: u64, cell: int, n: int) -> nat
    decreases n,
{
    if n <= 0 {
        0
    } else {
        piece_count(ps, board, cell, n - 1) + if ps[n - 1].0 & board == 0 && bit(
            ps[n - 1].0,
            cell,
        ) {
            1nat
        } else {
            0nat
        }
    }
}

/// How many placements of the first `n` listed pieces miss the board and hold
/// the cell.
pub open spec fn total_count(puzzle: Puzzle, board: u64, pieces: Seq<usize>, cell: int, n: int) -> nat
    decreases n,
{
    if n <= 0 {
        0
    } else {
        let ps = puzzle.pieces@[pieces[n - 1] as int].placements@;
        total_count(puzzle, board, pieces, cell, n - 1) + piece_count(
            ps,
            board,
            cell,
            ps.len() as int,
        )
    }
}

/// The union of the first `n` chosen placements.
pub open spec fn union_choice(choice: Seq<Bitset>, n: int) -> u64
    decreases n,
{
    if n <= 0 {
        0
    } else {
        union_choice(choice, n - 1) | choice[n - 1].0
    }
}

/// `choice` gives each listed piece one of its placements so that they miss the
/// board and each other and fill the cuboid together with the board.
pub open spec fn is_completion(
    puzzle: Puzzle,
    board: u64,
    pieces: Seq<usize>,
    choice: Seq<Bitset>,
) -> bool {
    &&& choice.len() == pieces.len()
    &&& forall|k: int|
        0 <= k < pieces.len() ==> puzzle.offers(pieces[k], #[trigger] choice[k]) && board
            & choice[k].0 == 0
    &&& forall|a: int, b: int|
        0 <= a < b < choice.len() ==> (#[trigger] choice[a]).0 & (#[trigger] choice[b]).0 == 0
    &&& board | union_choice(choice, choice.len() as int) == puzzle.full()
}

/// The cover of a piece grows with the number of placements counted, holds
/// each counted placement that misses the board, and stays within the full
/// board.
pub proof fn lemma_piece_cover_bounds(ps: Seq<Bitset>, board: u64, full: u64, n: int)
    requires
        0 <= n <= ps.len(),
        forall|j: int| 0 <= j < ps.len() ==> within((#[trigger] ps[j]).0, full),
    ensures
        within(piece_cover(ps, board, n), full),
        forall|j: int|
            0 <= j < n && (#[trigger] ps[j]).0 & board == 0 ==> within(
                ps[j].0,
                piece_cover(ps, board, n),
            ),
        forall|i: int| 0 <= i <= n ==> within(#[trigger] piece_cover(ps, board, i), piece_cover(ps, board, n)),
    decreases n,
{
    if n <= 0 {
        assert(within(0, full)) by (bit_vector);
        lemma_within_grow(0, 0, 0);
    } else {
        lemma_piece_cover_bounds(ps, board, full, n - 1);
        let rest = piece_cover(ps, board, n - 1);
        let now = piece_cover(ps, board, n);
        lemma_within_grow(rest, ps[n - 1].0, 0);
        lemma_within_grow(now, 0, 0);
        if ps[n - 1].0 & board == 0 {
            lemma_within_or(rest, ps[n - 1].0, full);
        }
        assert forall|j: int| 0 <= j < n && (#[trigger] ps[j]).0 & board == 0 implies within(
            ps[j].0,
            now,
        ) by {
            if j < n - 1 {
                lemma_within_grow(ps[j].0, rest, now);
            }
        }
        assert forall|i: int| 0 <= i <= n implies within(
            #[trigger] piece_cover(ps, board, i),
            now,
        ) by {
            if i < n {
                lemma_within_grow(piece_cover(ps, board, i), rest, now);
            }
        }
    }
}

/// The cover grows with the number of pieces, holds the board and the
/// surviving placements of each piece counted, and stays within the full board.
pub proof fn lemma_cover_bounds(puzzle: Puzzle, board: u64, pieces: Seq<usize>, n: int)
    requires
        puzzle.wf(),
        within(board, puzzle.full()),
        ids_in_range(puzzle, pieces),
        0 <= n <= pieces.len(),
    ensures
        within(cover(puzzle, board, pieces, n), puzzle.full()),
        forall|i: int|
            0 <= i <= n ==> within(
                #[trigger] cover(puzzle, board, pieces, i),
                cover(puzzle, board, pieces, n),
            ),
        forall|k: int, j: int|
            0 <= k < n && 0 <= j < puzzle.pieces@[pieces[k] as int].placements@.len() && (
            #[trigger] puzzle.placement(pieces[k] as int, j)).0 & board == 0 ==> within(
                puzzle.placement(pieces[k] as int, j).0,
                cover(puzzle, board, pieces, n),
            ),
    decreases n,
{
    let now = cover(puzzle, board, pieces, n);
    lemma_within_grow(now, 0, 0);
    if n > 0 {
        lemma_cover_bounds(puzzle, board, pieces, n - 1);
        let rest = cover(puzzle, board, pieces, n - 1);
        let pid = pieces[n - 1] as int;
        let ps = puzzle.pieces@[pid].placements@;
        let pc = piece_cover(ps, board, ps.len() as int);
        assert forall|j: int| 0 <= j < ps.len() implies within((#[trigger] ps[j]).0, puzzle.full()) by {
            assert(ps[j] == puzzle.placement(pid, j));
        }
        lemma_piece_cover_bounds(ps, board, puzzle.full(), ps.len() as int);
        lemma_within_or(rest, pc, puzzle.full());
        lemma_within_grow(rest, pc, 0);
        assert forall|i: int| 0 <= i <= n implies within(
            #[trigger] cover(puzzle, board, pieces, i),
            now,
        ) by {
            if i < n {
                lemma_within_grow(cover(puzzle, board, pieces, i), rest, now);
            }
        }
        assert forall|k: int, j: int|
            0 <= k < n && 0 <= j < puzzle.pieces@[pieces[k] as int].placements@.len() && (
            #[trigger] puzzle.placement(pieces[k] as int, j)).0 & board == 0 implies within(
            puzzle.placement(pieces[k] as int, j).0,
            now,
        ) by {
            let p = puzzle.placement(pieces[k] as int, j).0;
            if k < n - 1 {
                lemma_within_grow(p, rest, now);
            } else {
                assert(ps[j] == puzzle.placement(pid, j));
                lemma_within_grow(p, pc, now);
            }
        }
    }
}

/// Each chosen placement is within the union of the choice.
pub proof fn lemma_union_choice_within(choice: Seq<Bitset>, n: int, target: u64)
    requires
        0 <= n <= choice.len(),
        forall|k: int| 0 <= k < n ==> within((#[trigger] choice[k]).0, target),
    ensures
        within(union_choice(choice, n), target),
    decreases n,
{
    if n <= 0 {
        assert(within(0, target)) by (bit_vector);
    } else {
        lemma_union_choice_within(choice, n - 1, target);
        lemma_within_or(union_choice(choice, n - 1), choice[n - 1].0, target);
    }
}

/// A cell of the union of a choice is a cell of one of the chosen placements.
pub proof fn lemma_union_choice_bit(choice: Seq<Bitset>, n: int, c: int) -> (k: int)
    requires
        0 <= n <= choice.len(),
        bit(union_choice(choice, n), c),
    ensures
        0 <= k < n,
        bit(choice[k].0, c),
    decreases n,
{
    if n <= 0 {
        crate::bitset::lemma_bit_zero(c);
        0
    } else {
        lemma_bit_or(union_choice(choice, n - 1), choice[n - 1].0, c);
        if bit(choice[n - 1].0, c) {
            n - 1
        } else {
            lemma_union_choice_bit(choice, n - 1, c)
        }
    }
}

/// The pruner is sound: a board that the remaining pieces can still complete
/// passes both of its tests.
pub proof fn lemma_pruner_sound(puzzle: Puzzle, board: u64, pieces: Seq<usize>, choice: Seq<Bitset>)
    requires
        puzzle.wf(),
        within(board, puzzle.full()),
        ids_in_range(puzzle, pieces),
        is_completion(puzzle, board, pieces, choice),
    ensures
        all_fit(puzzle, board, pieces),
        cover(puzzle, board, pieces, pieces.len() as int) == puzzle.full(),
{
    let n = pieces.len() as int;
    let all = cover(puzzle, board, pieces, n);
    lemma_cover_bounds(puzzle, board, pieces, n);
    assert forall|k: int| 0 <= k < n implies fits_somewhere(puzzle, board, #[trigger] pieces[k])
        && within(choice[k].0, all) by {
        assert(puzzle.offers(pieces[k], choice[k]));
        let j = choose|j: int|
            0 <= j < puzzle.pieces@[pieces[k] as int].placements@.len() && #[trigger] puzzle.placement(
                pieces[k] as int,
                j,
            ) == choice[k];
        lemma_and_comm(board, choice[k].0);
        assert(puzzle.placement(pieces[k] as int, j).0 & board == 0);
    }
    lemma_union_choice_within(choice, n, all);
    assert(cover(puzzle, board, pieces, 0) == board);
    lemma_within_or(board, union_choice(choice, n), all);
    lemma_within_both(all, puzzle.full());
}

impl Solver {
    /// A solver.
    pub fn build() -> (r: Solver) {
        Solver {  }
    }

    /// Takes the next chunk of at most eight placements, from `start` on, into
    /// the union of the placements that miss the board.
    fn process_placement_chunk(
        board: Board,
        placements: &Vec<Placement>,
        start: usize,
        coverage: u64,
    ) -> (r: (u64, usize))
        requires
            start < placements@.len(),
            coverage == piece_cover(placements@, board.0, start as int),
        ensures
            start < r.1 <= placements@.len(),
            r.1 == if start + 8 <= placements@.len() {
                start + 8
            } else {
                placements@.len() as int
            },
            r.0 == piece_cover(placements@, board.0, r.1 as int),
    {
        let end: usize = if placements.len() - start >= 8 {
            start + 8
        } else {
            placements.len()
        };
        let mut acc: u64 = coverage;
        let mut j: usize = start;
        while j < end
            invariant
                start <= j <= end <= placements@.len(),
                acc == piece_cover(placements@, board.0, j as int),
            decreases end - j,
        {
            let placement = placements[j];
            if !placement.intersects(board) {
                acc = acc | placement.0;
            }
            j = j + 1;
        }
        (acc, end)
    }

    /// The coverage test: whether the board and the placements of the listed
    /// pieces that miss it cover the whole cuboid.
    pub fn has_full_coverage(puzzle: &Puzzle, board: Bitset, pieces: &Vec<usize>) -> (r: bool)
        requires
            puzzle.wf(),
            within(board.0, puzzle.full()),
            ids_in_range(*puzzle, pieces@),
        ensures
            r == (cover(*puzzle, board.0, pieces@, pieces@.len() as int) == puzzle.full()),
    {
        let full = puzzle.full_board().0;
        let mut coverage: u64 = board.0;
        let mut k: usize = 0;
        proof {
            lemma_cover_bounds(*puzzle, board.0, pieces@, pieces@.len() as int);
            assert(cover(*puzzle, board.0, pieces@, 0) == board.0);
        }
        if coverage == full {
            proof {
                lemma_within_both(cover(*puzzle, board.0, pieces@, pieces@.len() as int), full);
            }
            return true;
        }
        while k < pieces.len()
            invariant
                k <= pieces@.len(),
                puzzle.wf(),
                within(board.0, puzzle.full()),
                ids_in_range(*puzzle, pieces@),
                full == puzzle.full(),
                coverage == cover(*puzzle, board.0, pieces@, k as int),
                within(cover(*puzzle, board.0, pieces@, pieces@.len() as int), full),
                forall|i: int|
                    0 <= i <= pieces@.len() ==> within(
                        #[trigger] cover(*puzzle, board.0, pieces@, i),
                        cover(*puzzle, board.0, pieces@, pieces@.len() as int),
                    ),
            decreases pieces@.len() - k,
        {
            let pid = pieces[k];
            let piece = &puzzle.pieces[pid];
            let ghost ps = piece.placements@;
            let ghost base = coverage;
            let mut acc: u64 = 0;
            let mut j: usize = 0;
            proof {
                assert forall|i: int| 0 <= i < ps.len() implies within((#[trigger] ps[i]).0, full) by {
                    assert(ps[i] == puzzle.placement(pid as int, i));
                }
                lemma_piece_cover_bounds(ps, board.0, full, ps.len() as int);
            }
            while j < piece.placements.len()
                invariant
                    j <= ps.len(),
                    ps == piece.placements@,
                    acc == piece_cover(ps, board.0, j as int),
                    forall|i: int|
                        0 <= i <= ps.len() ==> within(
                            #[trigger] piece_cover(ps, board.0, i),
                            piece_cover(ps, board.0, ps.len() as int),
                        ),
                    k < pieces@.len(),
                    pid == pieces@[k as int],
                    pid < puzzle.pieces@.len(),
                    ps == puzzle.pieces@[pid as int].placements@,
                    base == cover(*puzzle, board.0, pieces@, k as int),
                    base == coverage,
                    full == puzzle.full(),
                    within(cover(*puzzle, board.0, pieces@, pieces@.len() as int), full),
                    within(
                        cover(*puzzle, board.0, pieces@, k + 1),
                        cover(*puzzle, board.0, pieces@, pieces@.len() as int),
                    ),
                decreases ps.len() - j,
            {
                let (next, end) = Solver::process_placement_chunk(board, &piece.placements, j, acc);
                acc = next;
                j = end;
                if coverage | acc == full {
                    proof {
                        let all = cover(*puzzle, board.0, pieces@, pieces@.len() as int);
                        let next = cover(*puzzle, board.0, pieces@, k + 1);
                        let pc = piece_cover(ps, board.0, ps.len() as int);
                        assert(acc == piece_cover(ps, board.0, j as int));
                        assert(within(acc, pc));
                        lemma_within_grow(base, pc, 0);
                        lemma_within_grow(acc, pc, base);
                        lemma_within_or(base, acc, next);
                        lemma_within_grow(base | acc, next, all);
                        lemma_within_both(all, full);
                    }
                    return true;
                }
            }
            coverage = coverage | acc;
            k = k + 1;
        }
        coverage == full
    }

    /// How many placements of the listed pieces miss the board and hold the
    /// cell at `coord`; `usize::MAX` if there are more than that.
    pub fn number_orientations_for_coord(
        puzzle: &Puzzle,
        board: Bitset,
        pieces: &Vec<usize>,
        coord: Coord,
    ) -> (r: usize)
        requires
            valid_dim(puzzle.dim),
            coord.inside(puzzle.dim),
            ids_in_range(*puzzle, pieces@),
        ensures
            r == if total_count(
                *puzzle,
                board.0,
                pieces@,
                coord.index(puzzle.dim),
                pieces@.len() as int,
            ) <= usize::MAX {
                total_count(*puzzle, board.0, pieces@, coord.index(puzzle.dim), pieces@.len() as int)
            } else {
                usize::MAX as nat
            },
    {
        let cell = coord.to_index(puzzle.dim);
        let mut total: usize = 0;
        let mut k: usize = 0;
        while k < pieces.len()
            invariant
                k <= pieces@.len(),
                cell < 64,
                cell == coord.index(puzzle.dim),
                ids_in_range(*puzzle, pieces@),
                total == if total_count(*puzzle, board.0, pieces@, cell as int, k as int)
                    <= usize::MAX {
                    total_count(*puzzle, board.0, pieces@, cell as int, k as int)
                } else {
                    usize::MAX as nat
                },
            decreases pieces@.len() - k,
        {
            let piece = &puzzle.pieces[pieces[k]];
            let ghost ps = piece.placements@;
            let mut count: usize = 0;
            let mut j: usize = 0;
            while j < piece.placements.len()
                invariant
                    j <= ps.len(),
                    cell < 64,
                    ps == piece.placements@,
                    count == piece_count(ps, board.0, cell as int, j as int),
                    count <= j,
                decreases ps.len() - j,
            {
                let placement = piece.placements[j];
                proof {
                    lemma_and_comm(board.0, placement.0);
                }
                if !board.intersects(placement) && placement.get(cell) {
                    count = count + 1;
                }
                j = j + 1;
            }
            total = total.saturating_add(count);
            k = k + 1;
        }
        total
    }

    /// The fit test: whether every listed piece has a placement that misses the
    /// board.
    pub fn can_pieces_fit(puzzle: &Puzzle, board: Bitset, pieces: &Vec<usize>) -> (r: bool)
        requires
            ids_in_range(*puzzle, pieces@),
        ensures
            r == all_fit(*puzzle, board.0, pieces@),
    {
        let mut k: usize = 0;
        while k < pieces.len()
            invariant
                k <= pieces@.len(),
                ids_in_range(*puzzle, pieces@),
                forall|i: int| 0 <= i < k ==> fits_somewhere(*puzzle, board.0, #[trigger] pieces@[i]),
            decreases pieces@.len() - k,
        {
            let pid = pieces[k];
            let piece = &puzzle.pieces[pid];
            let mut length: usize = 0;
            let mut j: usize = 0;
            while j < piece.placements.len()
                invariant
                    j <= piece.placements@.len(),
                    pid < puzzle.pieces@.len(),
                    piece.placements@ == puzzle.pieces@[pid as int].placements@,
                    length <= j,
                    length == 0 ==> forall|i: int|
                        0 <= i < j ==> (#[trigger] puzzle.placement(pid as int, i)).0 & board.0
                            != 0,
                    length > 0 ==> fits_somewhere(*puzzle, board.0, pid),
                decreases piece.placements@.len() - j,
            {
                let placement = piece.placements[j];
                proof {
                    lemma_and_comm(board.0, placement.0);
                    assert(placement == puzzle.placement(pid as int, j as int));
                }
                if !board.intersects(placement) {
                    length = length + 1;
                }
                j = j + 1;
            }
            if length == 0 {
                assert(!fits_somewhere(*puzzle, board.0, pieces@[k as int]));
                return false;
            }
            k = k + 1;
        }
        true
    }

    /// The lowest empty cell at or after `prev`, with the mask of that cell
    /// alone; `None` if every cell of the cuboid from `prev` on is taken.
    pub fn new_cube(puzzle: &Puzzle, arrangement: &Arrangement, prev: usize) -> (r: Option<
        (usize, Bitset),
    >)
        requires
            valid_dim(puzzle.dim),
        ensures
            match r {
                Some((cube, mask)) => {
                    &&& prev <= cube < cell_count(puzzle.dim)
                    &&& !arrangement.occupied.has(cube as int)
                    &&& mask.0 == single(cube as int)
                    &&& forall|i: int| prev <= i < cube ==> arrangement.occupied.has(i)
                },
                None => forall|i: int|
                    prev <= i < cell_count(puzzle.dim) ==> arrangement.occupied.has(i),
            },
    {
        let cells = puzzle.cells();
        if prev >= cells {
            return None;
        }
        let mut cube: usize = prev;
        let mut mask: u64 = 1u64 << cube;
        proof {
            lemma_bit_meets_single(arrangement.occupied.0, cube as int);
            lemma_and_comm(mask, arrangement.occupied.0);
        }
        while mask & arrangement.occupied.0 != 0
            invariant
                prev <= cube < cells,
                cells <= 64,
                cells == cell_count(puzzle.dim),
                mask == single(cube as int),
                forall|i: int| prev <= i < cube ==> arrangement.occupied.has(i),
                arrangement.occupied.has(cube as int) <==> mask & arrangement.occupied.0 != 0,
            decreases cells - cube,
        {
            if cube + 1 >= cells {
                return None;
            }
            cube = cube + 1;
            mask = 1u64 << cube;
            proof {
                lemma_bit_meets_single(arrangement.occupied.0, cube as int);
                lemma_and_comm(mask, arrangement.occupied.0);
            }
        }
        Some((cube, Bitset(mask)))
    }
}

/// The board after the first `t` placements of `ext` were added to it.
pub open spec fn board_after(board: u64, ext: Seq<(usize, Bitset)>, t: int) -> u64
    decreases t,
{
    if t <= 0 {
        board
    } else {
        board_after(board, ext, t - 1) | ext[t - 1].1.0
    }
}

/// `c` is the lowest cell that the board leaves empty.
pub open spec fn lowest_empty(board: u64, c: int) -> bool {
    &&& 0 <= c < 64
    &&& !bit(board, c)
    &&& forall|i: int| 0 <= i < c ==> bit(board, i)
}

/// Placement `t` of `ext` misses everything placed before it and holds the
/// lowest cell that was empty when it was placed.
pub open spec fn placed_well(board: u64, ext: Seq<(usize, Bitset)>, t: int) -> bool {
    let b = board_after(board, ext, t);
    &&& b & ext[t].1.0 == 0
    &&& exists|c: int| lowest_empty(b, c) && bit(ext[t].1.0, c)
}

/// `ext` completes the board: it places each listed piece once, at one of its
/// placements, every placement on free cells and on the lowest empty cell of
/// its time, and fills the cuboid.
pub open spec fn is_tiling(
    puzzle: Puzzle,
    board: u64,
    pieces: Seq<usize>,
    ext: Seq<(usize, Bitset)>,
) -> bool {
    &&& ext.len() == pieces.len()
    &&& forall|t: int|
        0 <= t < ext.len() ==> pieces.contains((#[trigger] ext[t]).0) && puzzle.offers(
            ext[t].0,
            ext[t].1,
        )
    &&& forall|t: int, u: int|
        0 <= t < u < ext.len() ==> (#[trigger] ext[t]).0 != (#[trigger] ext[u]).0
    &&& forall|t: int| 0 <= t < ext.len() ==> #[trigger] placed_well(board, ext, t)
    &&& board_after(board, ext, ext.len() as int) == puzzle.full()
}

/// The entries of a solution above the first `n`.
pub open spec fn tail(sol: Arrangement, n: int) -> Seq<(usize, Bitset)> {
    sol.placements@.subrange(n, sol.placements@.len() as int)
}

/// `sol` is the stack `base` followed by a tiling of the rest of the board by
/// the listed pieces.
pub open spec fn solves(
    puzzle: Puzzle,
    base: Seq<(usize, Bitset)>,
    board: u64,
    pieces: Seq<usize>,
    sol: Arrangement,
) -> bool {
    &&& sol.placements@.len() == base.len() + pieces.len()
    &&& sol.placements@.subrange(0, base.len() as int) == base
    &&& sol.occupied.0 == puzzle.full()
    &&& is_tiling(puzzle, board, pieces, tail(sol, base.len() as int))
}

/// `ext` places each listed piece where `choice` does.
pub open spec fn realises(ext: Seq<(usize, Bitset)>, pieces: Seq<usize>, choice: Seq<Bitset>) -> bool {
    forall|k: int| 0 <= k < pieces.len() ==> ext.contains((#[trigger] pieces[k], choice[k]))
}

/// The solutions that were there stay, in place.
pub open spec fn kept(before: Seq<Arrangement>, after: Seq<Arrangement>) -> bool {
    &&& before.len() <= after.len()
    &&& forall|i: int| 0 <= i < before.len() ==> #[trigger] after[i] == before[i]
}

/// Every solution from index `from` on completes the board.
pub open spec fn sound(
    puzzle: Puzzle,
    base: Seq<(usize, Bitset)>,
    board: u64,
    pieces: Seq<usize>,
    sols: Seq<Arrangement>,
    from: int,
) -> bool {
    forall|i: int| from <= i < sols.len() ==> solves(puzzle, base, board, pieces, #[trigger] sols[i])
}

/// No two solutions from index `from` on are the same stack.
pub open spec fn distinct(sols: Seq<Arrangement>, from: int) -> bool {
    forall|i: int, j: int|
        from <= i < j < sols.len() ==> (#[trigger] sols[i]).placements@ != (
        #[trigger] sols[j]).placements@
}

/// Every solution from index `from` on keeps the invariant of arrangements.
pub open spec fn all_wf(sols: Seq<Arrangement>, from: int) -> bool {
    forall|i: int| from <= i < sols.len() ==> (#[trigger] sols[i]).wf()
}

/// One of the solutions from index `from` on places the pieces as `choice`
/// does.
pub open spec fn found(
    sols: Seq<Arrangement>,
    from: int,
    n: int,
    pieces: Seq<usize>,
    choice: Seq<Bitset>,
) -> bool {
    exists|i: int| from <= i < sols.len() && realises(tail(#[trigger] sols[i], n), pieces, choice)
}

/// One of the first `n` chosen placements holds the cell.
pub open spec fn covered_before(choice: Seq<Bitset>, cell: int, n: int) -> bool {
    exists|k: int| 0 <= k < n && k < choice.len() && bit((#[trigger] choice[k]).0, cell)
}

/// Piece `pid` has one of its first `n` placements at the head of the tail.
pub open spec fn starts_with(puzzle: Puzzle, sol: Arrangement, at: int, pid: usize, n: int) -> bool {
    exists|j: int|
        0 <= j < n && at < sol.placements@.len() && sol.placements@[at] == (
            pid,
            #[trigger] puzzle.placement(pid as int, j),
        )
}

/// The board after an entry and `t` more is the board with that entry on it
/// after `t` entries.
pub proof fn lemma_board_after_shift(board: u64, q: usize, p: Bitset, inner: Seq<(usize, Bitset)>, t: int)
    requires
        0 <= t <= inner.len(),
    ensures
        board_after(board, seq![(q, p)] + inner, t + 1) == board_after(board | p.0, inner, t),
    decreases t,
{
    let ext = seq![(q, p)] + inner;
    if t <= 0 {
        assert(ext[0] == (q, p));
        assert(board_after(board, ext, 0) == board);
    } else {
        lemma_board_after_shift(board, q, p, inner, t - 1);
        assert(ext[t] == inner[t - 1]);
    }
}

/// The union of a choice is the union of one of its placements and of the
/// others.
pub proof fn lemma_union_choice_remove(choice: Seq<Bitset>, idx: int, n: int)
    requires
        0 <= idx < n <= choice.len(),
    ensures
        union_choice(choice, n) == choice[idx].0 | union_choice(choice.remove(idx), n - 1),
    decreases n,
{
    let rest = choice.remove(idx);
    if n - 1 == idx {
        lemma_union_choice_same(choice, rest, idx);
        lemma_or_laws(union_choice(choice, idx), choice[idx].0, 0);
    } else {
        lemma_union_choice_remove(choice, idx, n - 1);
        assert(rest[n - 2] == choice[n - 1]);
        lemma_or_laws(choice[idx].0, union_choice(rest, n - 2), choice[n - 1].0);
    }
}

/// Choices that agree on their first `n` placements have the same union of
/// those.
pub proof fn lemma_union_choice_same(a: Seq<Bitset>, b: Seq<Bitset>, n: int)
    requires
        0 <= n <= a.len(),
        n <= b.len(),
        forall|k: int| 0 <= k < n ==> a[k] == b[k],
    ensures
        union_choice(a, n) == union_choice(b, n),
    decreases n,
{
    if n > 0 {
        lemma_union_choice_same(a, b, n - 1);
    }
}

/// What is left of a completion once one of its placements is on the board
/// completes the new board.
pub proof fn lemma_completion_restrict(
    puzzle: Puzzle,
    board: u64,
    pieces: Seq<usize>,
    choice: Seq<Bitset>,
    idx: int,
)
    requires
        is_completion(puzzle, board, pieces, choice),
        0 <= idx < pieces.len(),
    ensures
        is_completion(puzzle, board | choice[idx].0, pieces.remove(idx), choice.remove(idx)),
{
    let p = choice[idx].0;
    let others = pieces.remove(idx);
    let rest = choice.remove(idx);
    assert forall|k: int| 0 <= k < others.len() implies puzzle.offers(others[k], #[trigger] rest[k])
        && (board | p) & rest[k].0 == 0 by {
        let m = if k < idx { k } else { k + 1 };
        assert(others[k] == pieces[m] && rest[k] == choice[m]);
        if m < idx {
            assert(choice[m].0 & choice[idx].0 == 0);
            crate::bitset::lemma_and_comm(choice[m].0, p);
        } else {
            assert(choice[idx].0 & choice[m].0 == 0);
        }
        lemma_disjoint_or(board, p, rest[k].0);
    }
    assert forall|a: int, b: int| 0 <= a < b < rest.len() implies (#[trigger] rest[a]).0 & (
    #[trigger] rest[b]).0 == 0 by {
        let ma = if a < idx { a } else { a + 1 };
        let mb = if b < idx { b } else { b + 1 };
        assert(rest[a] == choice[ma] && rest[b] == choice[mb]);
    }
    lemma_union_choice_remove(choice, idx, choice.len() as int);
    lemma_or_laws(board, p, union_choice(rest, rest.len() as int));
}

/// A tiling of the board with one more placement on it, headed by that
/// placement, is a tiling of the board.
pub proof fn lemma_tiling_extend(
    puzzle: Puzzle,
    board: u64,
    pieces: Seq<usize>,
    idx: int,
    p: Bitset,
    cube: int,
    inner: Seq<(usize, Bitset)>,
)
    requires
        ids_ok(puzzle, pieces),
        0 <= idx < pieces.len(),
        puzzle.offers(pieces[idx], p),
        board & p.0 == 0,
        lowest_empty(board, cube),
        bit(p.0, cube),
        is_tiling(puzzle, board | p.0, pieces.remove(idx), inner),
    ensures
        is_tiling(puzzle, board, pieces, seq![(pieces[idx], p)] + inner),
{
    let q = pieces[idx];
    let others = pieces.remove(idx);
    let ext = seq![(q, p)] + inner;
    assert(ext[0] == (q, p));
    assert forall|t: int| 1 <= t < ext.len() implies ext[t] == inner[t - 1] by {}
    assert forall|t: int| 0 <= t < inner.len() implies pieces.contains((#[trigger] inner[t]).0)
        && inner[t].0 != q by {
        assert(others.contains(inner[t].0));
        let m = choose|m: int| 0 <= m < others.len() && others[m] == inner[t].0;
        let mm = if m < idx { m } else { m + 1 };
        assert(others[m] == pieces[mm]);
    }
    assert forall|t: int| 0 <= t < ext.len() implies pieces.contains((#[trigger] ext[t]).0)
        && puzzle.offers(ext[t].0, ext[t].1) by {
        if t == 0 {
            assert(pieces[idx] == q);
        } else {
            assert(ext[t] == inner[t - 1]);
        }
    }
    assert forall|t: int, u: int| 0 <= t < u < ext.len() implies (#[trigger] ext[t]).0 != (
    #[trigger] ext[u]).0 by {
        assert(ext[u] == inner[u - 1]);
        if t > 0 {
            assert(ext[t] == inner[t - 1]);
        }
    }
    assert forall|t: int| 0 <= t < ext.len() implies #[trigger] placed_well(board, ext, t) by {
        if t == 0 {
            assert(board_after(board, ext, 0) == board);
            assert(lowest_empty(board, cube) && bit(ext[0].1.0, cube));
        } else {
            lemma_board_after_shift(board, q, p, inner, t - 1);
            assert(ext[t] == inner[t - 1]);
            assert(placed_well(board | p.0, inner, t - 1));
            let b = board_after(board | p.0, inner, t - 1);
            let c = choose|c: int| lowest_empty(b, c) && bit(inner[t - 1].1.0, c);
            assert(lowest_empty(board_after(board, ext, t), c) && bit(ext[t].1.0, c));
        }
    }
    lemma_board_after_shift(board, q, p, inner, inner.len() as int);
}

/// A solution of the board with one more placement on it is a solution of the
/// board, headed by that placement.
pub proof fn lemma_step_sound(
    puzzle: Puzzle,
    base: Seq<(usize, Bitset)>,
    board: u64,
    pieces: Seq<usize>,
    idx: int,
    p: Bitset,
    cube: int,
    sol: Arrangement,
)
    requires
        ids_ok(puzzle, pieces),
        0 <= idx < pieces.len(),
        puzzle.offers(pieces[idx], p),
        board & p.0 == 0,
        lowest_empty(board, cube),
        bit(p.0, cube),
        solves(puzzle, base.push((pieces[idx], p)), board | p.0, pieces.remove(idx), sol),
    ensures
        solves(puzzle, base, board, pieces, sol),
        sol.placements@[base.len() as int] == (pieces[idx], p),
{
    let n = base.len() as int;
    let longer = base.push((pieces[idx], p));
    let inner = tail(sol, n + 1);
    assert(sol.placements@.subrange(0, n + 1)[n] == longer[n]);
    assert(sol.placements@.subrange(0, n) =~= base) by {
        assert forall|i: int| 0 <= i < n implies sol.placements@[i] == base[i] by {
            assert(sol.placements@.subrange(0, n + 1)[i] == longer[i]);
        }
    }
    lemma_tiling_extend(puzzle, board, pieces, idx, p, cube, inner);
    assert(tail(sol, n) =~= seq![(pieces[idx], p)] + inner);
}

/// A solution that realises the rest of a completion above its placement for
/// piece `idx` realises the completion.
pub proof fn lemma_step_complete(
    pieces: Seq<usize>,
    choice: Seq<Bitset>,
    idx: int,
    n: int,
    sol: Arrangement,
)
    requires
        0 <= idx < pieces.len(),
        choice.len() == pieces.len(),
        0 <= n < sol.placements@.len(),
        sol.placements@[n] == (pieces[idx], choice[idx]),
        realises(tail(sol, n + 1), pieces.remove(idx), choice.remove(idx)),
    ensures
        realises(tail(sol, n), pieces, choice),
{
    let others = pieces.remove(idx);
    let rest = choice.remove(idx);
    let inner = tail(sol, n + 1);
    let outer = tail(sol, n);
    assert forall|k: int| 0 <= k < pieces.len() implies outer.contains(
        (#[trigger] pieces[k], choice[k]),
    ) by {
        if k == idx {
            assert(outer[0] == (pieces[k], choice[k]));
        } else {
            let m = if k < idx { k } else { k - 1 };
            assert(others[m] == pieces[k] && rest[m] == choice[k]);
            assert(inner.contains((others[m], rest[m])));
            let w = choose|w: int| 0 <= w < inner.len() && inner[w] == (others[m], rest[m]);
            assert(outer[w + 1] == inner[w]);
        }
    }
}

/// A board without an empty cell cannot be completed by a piece.
pub proof fn lemma_stuck(puzzle: Puzzle, board: u64, pieces: Seq<usize>, choice: Seq<Bitset>)
    requires
        puzzle.wf(),
        pieces.len() > 0,
        forall|i: int| 0 <= i < cell_count(puzzle.dim) ==> bit(board, i),
    ensures
        !is_completion(puzzle, board, pieces, choice),
{
    if is_completion(puzzle, board, pieces, choice) {
        let p = choice[0];
        assert(puzzle.offers(pieces[0], p));
        let j = choose|j: int|
            0 <= j < puzzle.pieces@[pieces[0] as int].placements@.len() && #[trigger] puzzle.placement(
                pieces[0] as int,
                j,
            ) == p;
        let c = crate::bitset::lemma_nonzero_has_bit(p.0);
        crate::bitset::lemma_within_bit(p.0, puzzle.full(), c);
        lemma_dim_bounds(puzzle.dim);
        lemma_bit_full(cell_count(puzzle.dim), c);
        crate::bitset::lemma_intersects_has(Bitset(board), p, c);
    }
}

/// Piece `pid` has the fewest placements, and is the first piece that has so
/// few.
pub open spec fn least_placements(puzzle: Puzzle, pid: usize) -> bool {
    &&& pid < puzzle.pieces@.len()
    &&& forall|q: int|
        0 <= q < puzzle.pieces@.len() ==> puzzle.pieces@[pid as int].placements@.len() <= (
        #[trigger] puzzle.pieces@[q]).placements@.len()
    &&& forall|q: int|
        0 <= q < pid ==> puzzle.pieces@[pid as int].placements@.len() < (
        #[trigger] puzzle.pieces@[q]).placements@.len()
}

/// Whether a rotation of the cuboid takes `p` to one of the placements kept.
pub open spec fn meets_orbit(kept: Seq<Bitset>, p: Bitset, dim: Coord) -> bool {
    exists|k: int, i: int|
        0 <= k < 24 && is_symmetry(dim, k) && 0 <= i < kept.len() && #[trigger] kept[i]
            == #[trigger] image(p, dim, k)
}

/// One placement of each class of the first `n` placements under the
/// rotations of the cuboid: a placement is kept unless a rotation takes it to
/// one kept before.
pub open spec fn orbit_reps(ps: Seq<Bitset>, dim: Coord, n: int) -> Seq<Bitset>
    decreases n,
{
    if n <= 0 {
        Seq::empty()
    } else {
        let rest = orbit_reps(ps, dim, n - 1);
        if meets_orbit(rest, ps[n - 1], dim) {
            rest
        } else {
            rest.push(ps[n - 1])
        }
    }
}

/// The pieces `0..n` without piece `pid`.
pub open spec fn other_pieces(n: nat, pid: usize) -> Seq<usize> {
    Seq::new(n, |i: int| i as usize).remove(pid as int)
}

/// How constrained the origin cell is once `b` is on the board: the number of
/// placements of the other pieces that miss `b` and hold the origin cell.
pub open spec fn score(puzzle: Puzzle, others: Seq<usize>, b: Bitset) -> nat {
    let t = total_count(puzzle, b.0, others, 0, others.len() as int);
    if t <= usize::MAX {
        t
    } else {
        usize::MAX as nat
    }
}

/// Among the first `n` poses, pose `k` is the first rotation of the cuboid
/// whose image of `rep` has the least score.
pub open spec fn best_upto(puzzle: Puzzle, others: Seq<usize>, rep: Bitset, k: int, n: int) -> bool {
    &&& 0 <= k < n
    &&& is_symmetry(puzzle.dim, k)
    &&& forall|m: int|
        0 <= m < n && is_symmetry(puzzle.dim, m) ==> {
            &&& score(puzzle, others, image(rep, puzzle.dim, k)) <= score(
                puzzle,
                others,
                #[trigger] image(rep, puzzle.dim, m),
            )
            &&& m < k ==> score(puzzle, others, image(rep, puzzle.dim, k)) < score(
                puzzle,
                others,
                image(rep, puzzle.dim, m),
            )
        }
}

/// `a` holds piece `pid` alone, at the best image of `rep`.
pub open spec fn start_of(puzzle: Puzzle, pid: usize, rep: Bitset, a: Arrangement) -> bool {
    exists|k: int|
        #![trigger image(rep, puzzle.dim, k)]
        {
            &&& best_upto(puzzle, other_pieces(puzzle.pieces@.len(), pid), rep, k, 24)
            &&& a.occupied == image(rep, puzzle.dim, k)
            &&& a.placements@ == seq![(pid, image(rep, puzzle.dim, k))]
        }
}

/// `pid` is the most constrained piece and `starts` are the starting
/// arrangements: one for each class of its placements under the rotations of
/// the cuboid.
pub open spec fn constrained(puzzle: Puzzle, pid: usize, starts: Seq<Arrangement>) -> bool {
    let reps = orbit_reps(
        puzzle.pieces@[pid as int].placements@,
        puzzle.dim,
        puzzle.pieces@[pid as int].placements@.len() as int,
    );
    &&& least_placements(puzzle, pid)
    &&& starts.len() == reps.len()
    &&& forall|i: int|
        0 <= i < starts.len() ==> start_of(puzzle, pid, reps[i], #[trigger] starts[i])
    &&& forall|i: int|
        0 <= i < starts.len() ==> within((#[trigger] starts[i]).occupied.0, puzzle.full())
    &&& forall|i: int| 0 <= i < starts.len() ==> (#[trigger] starts[i]).wf()
}

/// `sols` are the completions of `start` by the listed pieces: each of them
/// once, and no other arrangement.
pub open spec fn searched(
    puzzle: Puzzle,
    start: Arrangement,
    pieces: Seq<usize>,
    sols: Seq<Arrangement>,
) -> bool {
    &&& sound(puzzle, start.placements@, start.occupied.0, pieces, sols, 0)
    &&& distinct(sols, 0)
    &&& start.wf() ==> all_wf(sols, 0)
    &&& forall|choice: Seq<Bitset>|
        #[trigger] is_completion(puzzle, start.occupied.0, pieces, choice) ==> found(
            sols,
            0,
            start.placements@.len() as int,
            pieces,
            choice,
        )
}

/// What a run of the solver found.
pub struct Report {
    /// The piece that was placed first.
    pub piece: usize,
    /// The starting arrangements, each with that piece alone.
    pub starts: Vec<Arrangement>,
    /// For each starting arrangement, its solutions.
    pub found: Vec<Vec<Arrangement>>,
}

/// The number of solutions in the first `n` lists.
pub open spec fn solutions_in(found: Seq<Vec<Arrangement>>, n: int) -> nat
    decreases n,
{
    if n <= 0 {
        0
    } else {
        solutions_in(found, n - 1) + found[n - 1]@.len()
    }
}

impl Report {
    /// The number of solutions found; `usize::MAX` if there are more.
    pub fn total(&self) -> (r: usize)
        ensures
            r == if solutions_in(self.found@, self.found@.len() as int) <= usize::MAX {
                solutions_in(self.found@, self.found@.len() as int)
            } else {
                usize::MAX as nat
            },
    {
        let mut total: usize = 0;
        let mut i: usize = 0;
        while i < self.found.len()
            invariant
                i <= self.found@.len(),
                total == if solutions_in(self.found@, i as int) <= usize::MAX {
                    solutions_in(self.found@, i as int)
                } else {
                    usize::MAX as nat
                },
            decreases self.found@.len() - i,
        {
            total = total.saturating_add(self.found[i].len());
            i = i + 1;
        }
        total
    }
}

impl Solver {
    /// Whether the list holds the board.
    fn holds(list: &Vec<Board>, b: Board) -> (r: bool)
        ensures
            r == list@.contains(b),
    {
        let mut i: usize = 0;
        while i < list.len()
            invariant
                i <= list@.len(),
                forall|w: int| 0 <= w < i ==> list@[w] != b,
            decreases list@.len() - i,
        {
            if list[i].0 == b.0 {
                assert(list@[i as int] == b);
                return true;
            }
            i = i + 1;
        }
        false
    }

    /// The pieces `0..n` without piece `pid`.
    fn others(n: usize, pid: usize) -> (r: Vec<usize>)
        requires
            pid < n,
        ensures
            r@ == other_pieces(n as nat, pid),
    {
        let mut pieces: Vec<usize> = Vec::new();
        let mut i: usize = 0;
        while i < n
            invariant
                i <= n,
                pieces@.len() == i,
                forall|w: int| 0 <= w < i ==> pieces@[w] == w,
            decreases n - i,
        {
            pieces.push(i);
            i = i + 1;
        }
        assert(pieces@ =~= Seq::new(n as nat, |i: int| i as usize));
        pieces.remove(pid);
        pieces
    }

    /// Breaks the symmetry of the cuboid: picks the piece with the fewest
    /// placements, keeps one of its placements from each class under the
    /// rotations of the cuboid, and for each kept placement starts from the
    /// rotation of it that leaves the origin cell most constrained.
    pub fn constrain_start(&self, puzzle: &Puzzle) -> (r: (usize, Vec<Arrangement>))
        requires
            puzzle.wf(),
            puzzle.pieces@.len() > 0,
        ensures
            constrained(*puzzle, r.0, r.1@),
    {
        let n = puzzle.pieces.len();
        let dim = puzzle.dim;
        let mut best: usize = 0;
        let mut q: usize = 1;
        while q < n
            invariant
                1 <= q <= n,
                n == puzzle.pieces@.len(),
                best < q,
                forall|w: int|
                    0 <= w < q ==> puzzle.pieces@[best as int].placements@.len() <= (
                    #[trigger] puzzle.pieces@[w]).placements@.len(),
                forall|w: int|
                    0 <= w < best ==> puzzle.pieces@[best as int].placements@.len() < (
                    #[trigger] puzzle.pieces@[w]).placements@.len(),
            decreases n - q,
        {
            if puzzle.pieces[q].placements.len() < puzzle.pieces[best].placements.len() {
                best = q;
            }
            q = q + 1;
        }
        let piece = &puzzle.pieces[best];
        let ghost ps = piece.placements@;
        let mut unique_rotations: Vec<Board> = Vec::new();
        let mut j: usize = 0;
        while j < piece.placements.len()
            invariant
                j <= ps.len(),
                ps == piece.placements@,
                valid_dim(dim),
                unique_rotations@ == orbit_reps(ps, dim, j as int),
            decreases ps.len() - j,
        {
            let placement = piece.placements[j];
            let images = Orientation::symmetry_images(placement, dim);
            let mut unique = true;
            let mut k: usize = 0;
            while k < 24
                invariant
                    k <= 24,
                    images@.len() == 24,
                    forall|m: int|
                        0 <= m < 24 ==> #[trigger] images@[m] == if is_symmetry(dim, m) {
                            Some(image(placement, dim, m))
                        } else {
                            None
                        },
                    unique <==> !exists|m: int, i: int|
                        0 <= m < k && is_symmetry(dim, m) && 0 <= i < unique_rotations@.len()
                            && #[trigger] unique_rotations@[i] == #[trigger] image(
                            placement,
                            dim,
                            m,
                        ),
                decreases 24 - k,
            {
                match images[k] {
                    Some(b) => {
                        if Solver::holds(&unique_rotations, b) {
                            proof {
                                let i = choose|i: int|
                                    0 <= i < unique_rotations@.len() && unique_rotations@[i] == b;
                                assert(is_symmetry(dim, k as int) && unique_rotations@[i] == image(
                                    placement,
                                    dim,
                                    k as int,
                                ));
                            }
                            unique = false;
                        }
                    },
                    None => {},
                }
                k = k + 1;
            }
            let ghost before = unique_rotations@;
            if unique {
                unique_rotations.push(placement);
            }
            proof {
                assert(unique <==> !meets_orbit(before, placement, dim));
            }
            j = j + 1;
        }
        let pieces = Solver::others(n, best);
        let ghost reps = unique_rotations@;
        let ghost rest = pieces@;
        proof {
            assert forall|w: int| 0 <= w < rest.len() implies (#[trigger] rest[w]) < n by {
                let m = if w < best { w } else { w + 1 };
                assert(rest[w] == Seq::new(n as nat, |i: int| i as usize)[m]);
            }
        }
        let mut starting_arrangements: Vec<Arrangement> = Vec::new();
        let mut r: usize = 0;
        while r < unique_rotations.len()
            invariant
                r <= reps.len(),
                reps == unique_rotations@,
                rest == pieces@,
                rest == other_pieces(n as nat, best),
                n == puzzle.pieces@.len(),
                dim == puzzle.dim,
                valid_dim(dim),
                ids_in_range(*puzzle, rest),
                starting_arrangements@.len() == r,
                forall|i: int|
                    0 <= i < r ==> start_of(
                        *puzzle,
                        best,
                        reps[i],
                        #[trigger] starting_arrangements@[i],
                    ),
                forall|i: int|
                    0 <= i < r ==> within(
                        (#[trigger] starting_arrangements@[i]).occupied.0,
                        puzzle.full(),
                    ),
                forall|i: int| 0 <= i < r ==> (#[trigger] starting_arrangements@[i]).wf(),
            decreases reps.len() - r,
        {
            let placement = unique_rotations[r];
            let images = Orientation::symmetry_images(placement, dim);
            let mut have = false;
            let mut min_placements_count: usize = usize::MAX;
            let mut min_placements = Placement::new();
            let ghost mut at: int = 0;
            let mut k: usize = 0;
            while k < 24
                invariant
                    k <= 24,
                    images@.len() == 24,
                    rest == pieces@,
                    dim == puzzle.dim,
                    valid_dim(dim),
                    ids_in_range(*puzzle, rest),
                    forall|m: int|
                        0 <= m < 24 ==> #[trigger] images@[m] == if is_symmetry(dim, m) {
                            Some(image(placement, dim, m))
                        } else {
                            None
                        },
                    !have ==> forall|m: int| 0 <= m < k ==> !is_symmetry(dim, m),
                    have ==> best_upto(*puzzle, rest, placement, at, k as int),
                    have ==> min_placements == image(placement, dim, at),
                    have ==> min_placements_count == score(*puzzle, rest, min_placements),
                decreases 24 - k,
            {
                match images[k] {
                    Some(board) => {
                        assert(board == image(placement, dim, k as int));
                        let placement_count = Solver::number_orientations_for_coord(
                            puzzle,
                            board,
                            &pieces,
                            Coord::new(0, 0, 0),
                        );
                        assert(Coord { x: 0, y: 0, z: 0 }.index(dim) == 0) by {
                            let (dx, dy) = (dim.x as int, dim.y as int);
                            assert(0 * dx * dy + 0 * dx + 0 == 0) by (nonlinear_arith);
                        }
                        assert(placement_count == score(*puzzle, rest, board));
                        if !have || placement_count < min_placements_count {
                            min_placements = board;
                            min_placements_count = placement_count;
                            have = true;
                            proof {
                                at = k as int;
                            }
                        }
                    },
                    None => {},
                }
                k = k + 1;
            }
            assert(have);
            let mut a = Arrangement::new();
            proof {
                lemma_and_comm(0, min_placements.0);
                assert(min_placements.0 & 0 == 0) by (bit_vector);
            }
            a.push(best, min_placements);
            proof {
                lemma_or_laws(min_placements.0, 0, 0);
                assert(a.placements@ =~= seq![(best, image(placement, dim, at))]);
                assert(a.occupied == image(placement, dim, at));
            }
            starting_arrangements.push(a);
            r = r + 1;
        }
        (best, starting_arrangements)
    }

    /// Solves the puzzle: breaks the symmetry of the cuboid, then lists the
    /// completions of each starting arrangement by the other pieces.
    pub fn begin(&mut self, puzzle: &Puzzle) -> (report: Report)
        requires
            puzzle.wf(),
            puzzle.pieces@.len() > 0,
        ensures
            constrained(*puzzle, report.piece, report.starts@),
            report.found@.len() == report.starts@.len(),
            forall|i: int|
                0 <= i < report.starts@.len() ==> searched(
                    *puzzle,
                    report.starts@[i],
                    other_pieces(puzzle.pieces@.len(), report.piece),
                    (#[trigger] report.found@[i])@,
                ),
    {
        let (used_piece, starting_arrangements) = self.constrain_start(puzzle);
        let remaining = Solver::others(puzzle.pieces.len(), used_piece);
        proof {
            let n = puzzle.pieces@.len();
            assert forall|w: int| 0 <= w < remaining@.len() implies (#[trigger] remaining@[w])
                < n by {
                let m = if w < used_piece { w } else { w + 1 };
                assert(remaining@[w] == Seq::new(n, |i: int| i as usize)[m]);
            }
            assert forall|a: int, b: int| 0 <= a < b < remaining@.len() implies remaining@[a]
                != remaining@[b] by {
                let ma = if a < used_piece { a } else { a + 1 };
                let mb = if b < used_piece { b } else { b + 1 };
                assert(remaining@[a] == Seq::new(n, |i: int| i as usize)[ma]);
                assert(remaining@[b] == Seq::new(n, |i: int| i as usize)[mb]);
            }
        }
        let mut found: Vec<Vec<Arrangement>> = Vec::new();
        let mut i: usize = 0;
        while i < starting_arrangements.len()
            invariant
                i <= starting_arrangements@.len(),
                puzzle.wf(),
                ids_ok(*puzzle, remaining@),
                remaining@ == other_pieces(puzzle.pieces@.len(), used_piece),
                constrained(*puzzle, used_piece, starting_arrangements@),
                found@.len() == i,
                forall|w: int|
                    0 <= w < i ==> searched(
                        *puzzle,
                        starting_arrangements@[w],
                        remaining@,
                        (#[trigger] found@[w])@,
                    ),
            decreases starting_arrangements@.len() - i,
        {
            let mut a = starting_arrangements[i].clone();
            let mut solutions: Vec<Arrangement> = Vec::new();
            assert(a.wf() == starting_arrangements@[i as int].wf());
            assert(within(starting_arrangements@[i as int].occupied.0, puzzle.full()));
            Solver::solve_board(&mut solutions, puzzle, &mut a, 0, &remaining);
            found.push(solutions);
            i = i + 1;
        }
        Report { piece: used_piece, starts: starting_arrangements, found }
    }

    /// Tries every placement of piece `pid`, which is `remaining[idx]`, on the
    /// cell `cube`, the lowest empty cell: each placement that holds the cell,
    /// misses the board and leaves a board that passes the pruner is put on
    /// the stack, the search goes on below it, and it is taken off again.
    /// Every solution found is added to `solutions`.
    #[verifier::loop_isolation(false)]
    pub fn check_next_piece(
        solutions: &mut Vec<Arrangement>,
        puzzle: &Puzzle,
        remaining: &Vec<usize>,
        idx: usize,
        pid: usize,
        arrangement: &mut Arrangement,
        mask: Board,
        cube: usize,
    )
        requires
            puzzle.wf(),
            ids_ok(*puzzle, remaining@),
            idx < remaining@.len(),
            pid == remaining@[idx as int],
            within(old(arrangement).occupied.0, puzzle.full()),
            lowest_empty(old(arrangement).occupied.0, cube as int),
            mask.0 == single(cube as int),
        ensures
            final(arrangement).occupied == old(arrangement).occupied,
            final(arrangement).placements@ == old(arrangement).placements@,
            kept(old(solutions)@, final(solutions)@),
            sound(
                *puzzle,
                old(arrangement).placements@,
                old(arrangement).occupied.0,
                remaining@,
                final(solutions)@,
                old(solutions)@.len() as int,
            ),
            distinct(final(solutions)@, old(solutions)@.len() as int),
            old(arrangement).wf() ==> all_wf(final(solutions)@, old(solutions)@.len() as int),
            forall|i: int|
                old(solutions)@.len() <= i < final(solutions)@.len() ==> (
                #[trigger] final(solutions)@[i]).placements@[old(arrangement).placements@.len() as int].0
                    == pid,
            forall|choice: Seq<Bitset>|
                #[trigger] is_completion(*puzzle, old(arrangement).occupied.0, remaining@, choice)
                    && bit(choice[idx as int].0, cube as int) ==> found(
                    final(solutions)@,
                    old(solutions)@.len() as int,
                    old(arrangement).placements@.len() as int,
                    remaining@,
                    choice,
                ),
        decreases remaining@.len(), 0nat,
    {
        let ghost base = arrangement.placements@;
        let ghost board = arrangement.occupied.0;
        let ghost s0 = solutions@;
        let ghost n0 = base.len() as int;
        let mut other_pieces: Vec<usize> = Vec::new();
        let mut c: usize = 0;
        while c < remaining.len()
            invariant
                c <= remaining@.len(),
                other_pieces@ == remaining@.subrange(0, c as int),
            decreases remaining@.len() - c,
        {
            other_pieces.push(remaining[c]);
            c = c + 1;
            assert(other_pieces@ =~= remaining@.subrange(0, c as int));
        }
        assert(other_pieces@ =~= remaining@);
        other_pieces.remove(idx);
        let ghost others = other_pieces@;
        proof {
            assert(others == remaining@.remove(idx as int));
            assert forall|k: int| 0 <= k < others.len() implies (#[trigger] others[k])
                < puzzle.pieces@.len() by {
                let m = if k < idx { k } else { k + 1 };
                assert(others[k] == remaining@[m]);
            }
            assert forall|a: int, b: int| 0 <= a < b < others.len() implies others[a]
                != others[b] by {
                let ma = if a < idx { a } else { a + 1 };
                let mb = if b < idx { b } else { b + 1 };
                assert(others[a] == remaining@[ma] && others[b] == remaining@[mb]);
            }
            lemma_dim_bounds(puzzle.dim);
        }
        let piece = &puzzle.pieces[pid];
        let mut j: usize = 0;
        while j < piece.placements.len()
            invariant
                j <= piece.placements@.len(),
                piece.placements@ == puzzle.pieces@[pid as int].placements@,
                arrangement.occupied.0 == board,
                arrangement.placements@ == base,
                others == other_pieces@,
                kept(s0, solutions@),
                sound(*puzzle, base, board, remaining@, solutions@, s0.len() as int),
                distinct(solutions@, s0.len() as int),
                old(arrangement).wf() ==> all_wf(solutions@, s0.len() as int),
                forall|i: int|
                    s0.len() <= i < solutions@.len() ==> starts_with(
                        *puzzle,
                        #[trigger] solutions@[i],
                        n0,
                        pid,
                        j as int,
                    ),
                forall|choice: Seq<Bitset>|
                    #[trigger] is_completion(*puzzle, board, remaining@, choice) && bit(
                        choice[idx as int].0,
                        cube as int,
                    ) && (exists|w: int|
                        0 <= w < j && #[trigger] puzzle.placement(pid as int, w) == choice[idx as int])
                        ==> found(solutions@, s0.len() as int, n0, remaining@, choice),
            decreases piece.placements@.len() - j,
        {
            let placement = piece.placements[j];
            let new_board = arrangement.occupied.union(placement);
            let ghost s1 = solutions@;
            proof {
                assert(placement == puzzle.placement(pid as int, j as int));
                assert(puzzle.offers(pid, placement));
                lemma_within_or(board, placement.0, puzzle.full());
                lemma_bit_meets_single(placement.0, cube as int);
            }
            if !arrangement.occupied.intersects(placement) && placement.intersects(mask)
                && Solver::has_full_coverage(puzzle, new_board, &other_pieces)
                && Solver::can_pieces_fit(puzzle, new_board, &other_pieces) {
                arrangement.push(pid, placement);
                proof {
                    assert forall|i: int| 0 <= i < cube implies arrangement.occupied.has(i) by {
                        lemma_bit_or(board, placement.0, i);
                    }
                }
                Solver::solve_board(solutions, puzzle, arrangement, cube, &other_pieces);
                arrangement.pop();
                proof {
                    let longer = base.push((pid, placement));
                    assert(longer.drop_last() =~= base);
                    if old(arrangement).wf() {
                        assert forall|i: int| s0.len() <= i < solutions@.len() implies (
                        #[trigger] solutions@[i]).wf() by {
                            if i < s1.len() {
                                assert(solutions@[i] == s1[i]);
                            }
                        }
                    }
                    crate::bitset::lemma_xor_undoes_or(board, placement.0);
                    assert forall|i: int| s1.len() <= i < solutions@.len() implies solves(
                        *puzzle,
                        base,
                        board,
                        remaining@,
                        #[trigger] solutions@[i],
                    ) && solutions@[i].placements@[n0] == (pid, placement) by {
                        lemma_step_sound(
                            *puzzle,
                            base,
                            board,
                            remaining@,
                            idx as int,
                            placement,
                            cube as int,
                            solutions@[i],
                        );
                    }
                    assert forall|i: int| s0.len() <= i < solutions@.len() implies starts_with(
                        *puzzle,
                        #[trigger] solutions@[i],
                        n0,
                        pid,
                        j + 1,
                    ) by {
                        if i < s1.len() {
                            assert(solutions@[i] == s1[i]);
                            assert(starts_with(*puzzle, s1[i], n0, pid, j as int));
                            let w = choose|w: int|
                                0 <= w < j && n0 < s1[i].placements@.len() && s1[i].placements@[n0] == (
                                    pid,
                                    #[trigger] puzzle.placement(pid as int, w),
                                );
                            assert(0 <= w < j + 1 && solutions@[i].placements@[n0] == (
                                pid,
                                puzzle.placement(pid as int, w),
                            ));
                        } else {
                            assert(solutions@[i].placements@[n0] == (
                                pid,
                                puzzle.placement(pid as int, j as int),
                            ));
                        }
                    }
                    assert forall|a: int, b: int|
                        s0.len() <= a < b < solutions@.len() implies (
                    #[trigger] solutions@[a]).placements@ != (#[trigger] solutions@[b]).placements@ by {
                        if b < s1.len() {
                            assert(solutions@[a] == s1[a] && solutions@[b] == s1[b]);
                        } else if a < s1.len() {
                            assert(solutions@[a] == s1[a]);
                            assert(starts_with(*puzzle, s1[a], n0, pid, j as int));
                            let w = choose|w: int|
                                0 <= w < j && n0 < s1[a].placements@.len() && s1[a].placements@[n0] == (
                                    pid,
                                    #[trigger] puzzle.placement(pid as int, w),
                                );
                            assert(puzzle.placement(pid as int, w) != puzzle.placement(
                                pid as int,
                                j as int,
                            ));
                            assert(solutions@[b].placements@[n0] == (pid, placement));
                        }
                    }
                    assert forall|choice: Seq<Bitset>|
                        #[trigger] is_completion(*puzzle, board, remaining@, choice) && bit(
                            choice[idx as int].0,
                            cube as int,
                        ) && (exists|w: int|
                            0 <= w < j + 1 && #[trigger] puzzle.placement(pid as int, w)
                                == choice[idx as int]) implies found(
                        solutions@,
                        s0.len() as int,
                        n0,
                        remaining@,
                        choice,
                    ) by {
                        if exists|w: int|
                            0 <= w < j && #[trigger] puzzle.placement(pid as int, w)
                                == choice[idx as int] {
                            assert(found(s1, s0.len() as int, n0, remaining@, choice));
                            let i = choose|i: int|
                                s0.len() <= i < s1.len() && realises(
                                    tail(#[trigger] s1[i], n0),
                                    remaining@,
                                    choice,
                                );
                            assert(solutions@[i] == s1[i]);
                        } else {
                            assert(choice[idx as int] == placement);
                            lemma_completion_restrict(
                                *puzzle,
                                board,
                                remaining@,
                                choice,
                                idx as int,
                            );
                            let rest = choice.remove(idx as int);
                            assert(is_completion(*puzzle, board | placement.0, others, rest));
                            assert(found(solutions@, s1.len() as int, n0 + 1, others, rest));
                            let i = choose|i: int|
                                s1.len() <= i < solutions@.len() && realises(
                                    tail(#[trigger] solutions@[i], n0 + 1),
                                    others,
                                    rest,
                                );
                            lemma_step_complete(remaining@, choice, idx as int, n0, solutions@[i]);
                        }
                    }
                }
            } else {
                proof {
                    crate::bitset::lemma_and_comm(board, placement.0);
                    crate::bitset::lemma_and_comm(placement.0, mask.0);
                    assert forall|i: int| s0.len() <= i < solutions@.len() implies starts_with(
                        *puzzle,
                        #[trigger] solutions@[i],
                        n0,
                        pid,
                        j + 1,
                    ) by {
                        assert(starts_with(*puzzle, solutions@[i], n0, pid, j as int));
                        let w = choose|w: int|
                            0 <= w < j && n0 < solutions@[i].placements@.len()
                                && solutions@[i].placements@[n0] == (
                                pid,
                                #[trigger] puzzle.placement(pid as int, w),
                            );
                        assert(0 <= w < j + 1);
                    }
                    assert forall|choice: Seq<Bitset>|
                        #[trigger] is_completion(*puzzle, board, remaining@, choice) && bit(
                            choice[idx as int].0,
                            cube as int,
                        ) && (exists|w: int|
                            0 <= w < j + 1 && #[trigger] puzzle.placement(pid as int, w)
                                == choice[idx as int]) implies found(
                        solutions@,
                        s0.len() as int,
                        n0,
                        remaining@,
                        choice,
                    ) by {
                        if !(exists|w: int|
                            0 <= w < j && #[trigger] puzzle.placement(pid as int, w)
                                == choice[idx as int]) {
                            assert(choice[idx as int] == placement);
                            lemma_completion_restrict(
                                *puzzle,
                                board,
                                remaining@,
                                choice,
                                idx as int,
                            );
                            lemma_pruner_sound(
                                *puzzle,
                                board | placement.0,
                                others,
                                choice.remove(idx as int),
                            );
                            assert(false);
                        }
                    }
                }
            }
            j = j + 1;
        }
        proof {
            assert forall|i: int| s0.len() <= i < solutions@.len() implies (
            #[trigger] solutions@[i]).placements@[n0].0 == pid by {
                assert(starts_with(*puzzle, solutions@[i], n0, pid, j as int));
            }
            assert forall|choice: Seq<Bitset>|
                #[trigger] is_completion(*puzzle, board, remaining@, choice) && bit(
                    choice[idx as int].0,
                    cube as int,
                ) implies found(solutions@, s0.len() as int, n0, remaining@, choice) by {
                assert(puzzle.offers(remaining@[idx as int], choice[idx as int]));
                let w = choose|w: int|
                    0 <= w < puzzle.pieces@[pid as int].placements@.len() && #[trigger] puzzle.placement(
                        pid as int,
                        w,
                    ) == choice[idx as int];
                assert(0 <= w < j && puzzle.placement(pid as int, w) == choice[idx as int]);
            }
        }
    }

    /// Completes the arrangement in every possible way with the remaining
    /// pieces and adds each full arrangement to `solutions`.
    ///
    /// `prev` is a cell index below which the board has no empty cell. With no
    /// piece left, the arrangement is a solution if the board is full.
    /// Otherwise the lowest empty cell is found and each remaining piece is
    /// tried on it, in the order of `remaining`.
    #[verifier::loop_isolation(false)]
    pub fn solve_board(
        solutions: &mut Vec<Arrangement>,
        puzzle: &Puzzle,
        arrangement: &mut Arrangement,
        prev: usize,
        remaining: &Vec<usize>,
    )
        requires
            puzzle.wf(),
            ids_ok(*puzzle, remaining@),
            within(old(arrangement).occupied.0, puzzle.full()),
            forall|i: int| 0 <= i < prev ==> old(arrangement).occupied.has(i),
        ensures
            final(arrangement).occupied == old(arrangement).occupied,
            final(arrangement).placements@ == old(arrangement).placements@,
            kept(old(solutions)@, final(solutions)@),
            sound(
                *puzzle,
                old(arrangement).placements@,
                old(arrangement).occupied.0,
                remaining@,
                final(solutions)@,
                old(solutions)@.len() as int,
            ),
            distinct(final(solutions)@, old(solutions)@.len() as int),
            old(arrangement).wf() ==> all_wf(final(solutions)@, old(solutions)@.len() as int),
            forall|choice: Seq<Bitset>|
                #[trigger] is_completion(*puzzle, old(arrangement).occupied.0, remaining@, choice)
                    ==> found(
                    final(solutions)@,
                    old(solutions)@.len() as int,
                    old(arrangement).placements@.len() as int,
                    remaining@,
                    choice,
                ),
        decreases remaining@.len(), 1nat,
    {
        let ghost base = arrangement.placements@;
        let ghost board = arrangement.occupied.0;
        let ghost s0 = solutions@;
        let ghost n0 = base.len() as int;
        if remaining.len() == 0 {
            let full = puzzle.full_board();
            if arrangement.occupied.0 == full.0 {
                let sol = arrangement.clone();
                solutions.push(sol);
                proof {
                    let ext = tail(sol, n0);
                    assert(ext.len() == 0);
                    assert(sol.placements@.subrange(0, n0) =~= base);
                    assert(is_tiling(*puzzle, board, remaining@, ext));
                    assert(solutions@[s0.len() as int] == sol);
                    assert forall|choice: Seq<Bitset>|
                        #[trigger] is_completion(*puzzle, board, remaining@, choice) implies found(
                        solutions@,
                        s0.len() as int,
                        n0,
                        remaining@,
                        choice,
                    ) by {
                        assert(realises(tail(solutions@[s0.len() as int], n0), remaining@, choice));
                    }
                }
            } else {
                proof {
                    assert forall|choice: Seq<Bitset>|
                        #[trigger] is_completion(*puzzle, board, remaining@, choice) implies false by {
                        lemma_or_laws(board, 0, 0);
                    }
                }
            }
            return ;
        }
        match Solver::new_cube(puzzle, arrangement, prev) {
            None => {
                proof {
                    assert forall|i: int| 0 <= i < cell_count(puzzle.dim) implies bit(board, i) by {
                        assert(arrangement.occupied.has(i));
                    }
                    assert forall|choice: Seq<Bitset>|
                        #[trigger] is_completion(*puzzle, board, remaining@, choice) implies false by {
                        lemma_stuck(*puzzle, board, remaining@, choice);
                    }
                }
            },
            Some((cube, mask)) => {
                proof {
                    lemma_dim_bounds(puzzle.dim);
                    assert forall|i: int| 0 <= i < cube implies bit(board, i) by {
                        assert(arrangement.occupied.has(i));
                    }
                    assert(!arrangement.occupied.has(cube as int));
                    assert(lowest_empty(board, cube as int));
                }
                let mut idx: usize = 0;
                while idx < remaining.len()
                    invariant
                        idx <= remaining@.len(),
                        arrangement.occupied.0 == board,
                        arrangement.placements@ == base,
                        kept(s0, solutions@),
                        sound(*puzzle, base, board, remaining@, solutions@, s0.len() as int),
                        distinct(solutions@, s0.len() as int),
                        old(arrangement).wf() ==> all_wf(solutions@, s0.len() as int),
                        forall|i: int|
                            s0.len() <= i < solutions@.len() ==> exists|k: int|
                                0 <= k < idx && (#[trigger] solutions@[i]).placements@[n0].0
                                    == #[trigger] remaining@[k],
                        forall|choice: Seq<Bitset>|
                            #[trigger] is_completion(*puzzle, board, remaining@, choice)
                                && covered_before(choice, cube as int, idx as int) ==> found(
                                solutions@,
                                s0.len() as int,
                                n0,
                                remaining@,
                                choice,
                            ),
                    decreases remaining@.len() - idx,
                {
                    let ghost s1 = solutions@;
                    let pid = remaining[idx];
                    Solver::check_next_piece(
                        solutions,
                        puzzle,
                        remaining,
                        idx,
                        pid,
                        arrangement,
                        mask,
                        cube,
                    );
                    proof {
                        assert forall|i: int| s0.len() <= i < solutions@.len() implies solves(
                            *puzzle,
                            base,
                            board,
                            remaining@,
                            #[trigger] solutions@[i],
                        ) by {
                            if i < s1.len() {
                                assert(solutions@[i] == s1[i]);
                            }
                        }
                        if old(arrangement).wf() {
                            assert forall|i: int| s0.len() <= i < solutions@.len() implies (
                            #[trigger] solutions@[i]).wf() by {
                                if i < s1.len() {
                                    assert(solutions@[i] == s1[i]);
                                }
                            }
                        }
                        assert forall|i: int| s0.len() <= i < solutions@.len() implies exists|k: int|
                            0 <= k < idx + 1 && (#[trigger] solutions@[i]).placements@[n0].0
                                == #[trigger] remaining@[k] by {
                            if i < s1.len() {
                                assert(solutions@[i] == s1[i]);
                                let k = choose|k: int|
                                    0 <= k < idx && s1[i].placements@[n0].0 == #[trigger] remaining@[k];
                                assert(0 <= k < idx + 1 && solutions@[i].placements@[n0].0
                                    == remaining@[k]);
                            } else {
                                assert(solutions@[i].placements@[n0].0 == remaining@[idx as int]);
                            }
                        }
                        assert forall|a: int, b: int|
                            s0.len() <= a < b < solutions@.len() implies (
                        #[trigger] solutions@[a]).placements@ != (
                        #[trigger] solutions@[b]).placements@ by {
                            if b < s1.len() {
                                assert(solutions@[a] == s1[a] && solutions@[b] == s1[b]);
                            } else if a < s1.len() {
                                assert(solutions@[a] == s1[a]);
                                let k = choose|k: int|
                                    0 <= k < idx && s1[a].placements@[n0].0 == #[trigger] remaining@[k];
                                assert(remaining@[k] != remaining@[idx as int]);
                                assert(solutions@[b].placements@[n0].0 == pid);
                            }
                        }
                        assert forall|choice: Seq<Bitset>|
                            #[trigger] is_completion(*puzzle, board, remaining@, choice)
                                && covered_before(choice, cube as int, idx + 1) implies found(
                            solutions@,
                            s0.len() as int,
                            n0,
                            remaining@,
                            choice,
                        ) by {
                            if covered_before(choice, cube as int, idx as int) {
                                assert(found(s1, s0.len() as int, n0, remaining@, choice));
                                let i = choose|i: int|
                                    s0.len() <= i < s1.len() && realises(
                                        tail(#[trigger] s1[i], n0),
                                        remaining@,
                                        choice,
                                    );
                                assert(solutions@[i] == s1[i]);
                            } else {
                                let k = choose|k: int|
                                    0 <= k < idx + 1 && k < choice.len() && bit(
                                        (#[trigger] choice[k]).0,
                                        cube as int,
                                    );
                                assert(k == idx);
                                assert(found(solutions@, s1.len() as int, n0, remaining@, choice));
                                let i = choose|i: int|
                                    s1.len() <= i < solutions@.len() && realises(
                                        tail(#[trigger] solutions@[i], n0),
                                        remaining@,
                                        choice,
                                    );
                                assert(s0.len() <= i);
                            }
                        }
                    }
                    idx = idx + 1;
                }
                proof {
                    assert forall|choice: Seq<Bitset>|
                        #[trigger] is_completion(*puzzle, board, remaining@, choice) implies found(
                        solutions@,
                        s0.len() as int,
                        n0,
                        remaining@,
                        choice,
                    ) by {
                        let n = choice.len() as int;
                        lemma_bit_full(cell_count(puzzle.dim), cube as int);
                        lemma_bit_or(board, union_choice(choice, n), cube as int);
                        let k = lemma_union_choice_bit(choice, n, cube as int);
                        assert(bit(choice[k].0, cube as int));
                        assert(covered_before(choice, cube as int, idx as int));
                    }
                }
            },
        }
    }
}

} // verus!
