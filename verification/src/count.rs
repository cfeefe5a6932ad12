//! What the search finds is determined by the board and the pieces: every
//! list of solutions that the search may return holds the same stacks.

use vstd::prelude::*;
use vstd::relations::injective_on;
use vstd::set_lib::{lemma_int_range, lemma_len_subset, lemma_map_size, set_int_range};
use crate::bitset::{
    bit, within, Bitset, lemma_and_comm, lemma_bit_full, lemma_bit_or, lemma_disjoint_or,
    lemma_intersects_has, lemma_or_laws, lemma_within_grow,
};
use crate::coord::{cell_count, lemma_dim_bounds};
use crate::puzzle::{Arrangement, Puzzle};
use crate::solver::{
    board_after, covered_before, distinct, found, ids_ok, is_completion, is_tiling, lowest_empty,
    placed_well, realises, searched, solves, sound, tail, union_choice, lemma_board_after_shift,
    lemma_union_choice_bit, lemma_union_choice_remove,
};

verus! {

/// The board after some placements holds the board and each of them.
pub proof fn lemma_board_after_within(board: u64, ext: Seq<(usize, Bitset)>, t: int, u: int)
    requires
        0 <= t < u <= ext.len(),
    ensures
        within(ext[t].1.0, board_after(board, ext, u)),
        within(board, board_after(board, ext, u)),
    decreases u,
{
    let before = board_after(board, ext, u - 1);
    let last = ext[u - 1].1.0;
    lemma_within_grow(before, last, 0);
    if u - 1 > 0 {
        lemma_board_after_within(board, ext, 0, u - 1);
    } else {
        lemma_within_grow(board, 0, 0);
    }
    lemma_within_grow(board, before, before | last);
    if t < u - 1 {
        lemma_board_after_within(board, ext, t, u - 1);
        lemma_within_grow(ext[t].1.0, before, before | last);
    }
}

/// The placements of a tiling share no cell with each other.
pub proof fn lemma_tiling_disjoint(
    puzzle: Puzzle,
    board: u64,
    pieces: Seq<usize>,
    ext: Seq<(usize, Bitset)>,
    t: int,
    u: int,
)
    requires
        is_tiling(puzzle, board, pieces, ext),
        0 <= t < u < ext.len(),
    ensures
        ext[t].1.0 & ext[u].1.0 == 0,
{
    assert(placed_well(board, ext, u));
    lemma_board_after_within(board, ext, t, u);
    lemma_disjoint_or(ext[t].1.0, board_after(board, ext, u), ext[u].1.0);
}

/// The boards after equal prefixes are equal.
pub proof fn lemma_board_after_same(
    board: u64,
    e1: Seq<(usize, Bitset)>,
    e2: Seq<(usize, Bitset)>,
    n: int,
)
    requires
        0 <= n <= e1.len(),
        n <= e2.len(),
        forall|t: int| 0 <= t < n ==> e1[t] == e2[t],
    ensures
        board_after(board, e1, n) == board_after(board, e2, n),
    decreases n,
{
    if n > 0 {
        lemma_board_after_same(board, e1, e2, n - 1);
    }
}

/// Two such tilings agree on their first `n` entries.
proof fn lemma_same_prefix(
    puzzle: Puzzle,
    board: u64,
    pieces: Seq<usize>,
    e1: Seq<(usize, Bitset)>,
    e2: Seq<(usize, Bitset)>,
    n: int,
)
    requires
        is_tiling(puzzle, board, pieces, e1),
        is_tiling(puzzle, board, pieces, e2),
        forall|t: int| 0 <= t < e1.len() ==> e2.contains(#[trigger] e1[t]),
        0 <= n <= e1.len(),
    ensures
        forall|t: int| 0 <= t < n ==> e1[t] == e2[t],
    decreases n,
{
    if n > 0 {
        lemma_same_prefix(puzzle, board, pieces, e1, e2, n - 1);
        let t = n - 1;
        lemma_board_after_same(board, e1, e2, t);
        let b = board_after(board, e1, t);
        assert(placed_well(board, e1, t));
        assert(placed_well(board, e2, t));
        let c1 = choose|c: int| lowest_empty(b, c) && crate::bitset::bit(e1[t].1.0, c);
        let c2 = choose|c: int| lowest_empty(b, c) && crate::bitset::bit(e2[t].1.0, c);
        assert(c1 == c2);
        assert(e2.contains(e1[t]));
        let u = choose|u: int| 0 <= u < e2.len() && e2[u] == e1[t];
        if u < t {
            assert(e1[u] == e2[u]);
            assert(e1[u].0 != e1[t].0);
        }
        if u > t {
            lemma_tiling_disjoint(puzzle, board, pieces, e2, t, u);
            lemma_intersects_has(e2[t].1, e2[u].1, c1);
        }
    }
}

/// Two tilings of a board by the same pieces, of which one holds every entry of
/// the other, are the same list.
pub proof fn lemma_same_tiling(
    puzzle: Puzzle,
    board: u64,
    pieces: Seq<usize>,
    e1: Seq<(usize, Bitset)>,
    e2: Seq<(usize, Bitset)>,
)
    requires
        is_tiling(puzzle, board, pieces, e1),
        is_tiling(puzzle, board, pieces, e2),
        forall|t: int| 0 <= t < e1.len() ==> e2.contains(#[trigger] e1[t]),
    ensures
        e1 == e2,
{
    lemma_same_prefix(puzzle, board, pieces, e1, e2, e1.len() as int);
    assert(e1 =~= e2);
}

/// What follows the first placement of a tiling is a tiling of the board with
/// that placement on it, by the other pieces.
pub proof fn lemma_tiling_peel(
    puzzle: Puzzle,
    board: u64,
    pieces: Seq<usize>,
    ext: Seq<(usize, Bitset)>,
) -> (idx: int)
    requires
        is_tiling(puzzle, board, pieces, ext),
        ext.len() > 0,
    ensures
        0 <= idx < pieces.len(),
        pieces[idx] == ext[0].0,
        puzzle.offers(ext[0].0, ext[0].1),
        board & ext[0].1.0 == 0,
        is_tiling(puzzle, board | ext[0].1.0, pieces.remove(idx), ext.drop_first()),
{
    let (q, p) = ext[0];
    assert(pieces.contains(ext[0].0));
    let idx = choose|i: int| 0 <= i < pieces.len() && pieces[i] == q;
    let others = pieces.remove(idx);
    let inner = ext.drop_first();
    assert(ext =~= seq![(q, p)] + inner);
    assert(placed_well(board, ext, 0));
    assert forall|t: int| 0 <= t < inner.len() implies others.contains((#[trigger] inner[t]).0)
        && puzzle.offers(inner[t].0, inner[t].1) by {
        assert(inner[t] == ext[t + 1]);
        assert(pieces.contains(ext[t + 1].0));
        let m = choose|m: int| 0 <= m < pieces.len() && pieces[m] == ext[t + 1].0;
        assert(ext[0].0 != ext[t + 1].0);
        let w = if m < idx { m } else { m - 1 };
        assert(others[w] == pieces[m]);
    }
    assert forall|t: int, u: int| 0 <= t < u < inner.len() implies (#[trigger] inner[t]).0 != (
    #[trigger] inner[u]).0 by {
        assert(inner[t] == ext[t + 1] && inner[u] == ext[u + 1]);
    }
    assert forall|t: int| 0 <= t < inner.len() implies #[trigger] placed_well(
        board | p.0,
        inner,
        t,
    ) by {
        lemma_board_after_shift(board, q, p, inner, t);
        assert(inner[t] == ext[t + 1]);
        assert(placed_well(board, ext, t + 1));
        let b = board_after(board, ext, t + 1);
        let c = choose|c: int| lowest_empty(b, c) && crate::bitset::bit(ext[t + 1].1.0, c);
        assert(lowest_empty(board_after(board | p.0, inner, t), c) && crate::bitset::bit(
            inner[t].1.0,
            c,
        ));
    }
    lemma_board_after_shift(board, q, p, inner, inner.len() as int);
    idx
}

/// A completion of the board with one more placement on it, with that
/// placement put in for its piece, completes the board.
pub proof fn lemma_completion_insert(
    puzzle: Puzzle,
    board: u64,
    pieces: Seq<usize>,
    idx: int,
    p: Bitset,
    rest: Seq<Bitset>,
)
    requires
        0 <= idx < pieces.len(),
        puzzle.offers(pieces[idx], p),
        board & p.0 == 0,
        is_completion(puzzle, board | p.0, pieces.remove(idx), rest),
    ensures
        is_completion(puzzle, board, pieces, rest.insert(idx, p)),
        rest.insert(idx, p).len() == pieces.len(),
        rest.insert(idx, p)[idx] == p,
        forall|k: int|
            0 <= k < pieces.len() && k != idx ==> #[trigger] rest.insert(idx, p)[k] == rest[if k
                < idx {
                k
            } else {
                k - 1
            }],
{
    let others = pieces.remove(idx);
    let choice = rest.insert(idx, p);
    assert(choice.len() == pieces.len());
    assert(choice[idx] == p);
    assert forall|k: int| 0 <= k < pieces.len() && k != idx implies #[trigger] choice[k]
        == rest[if k < idx { k } else { k - 1 }] by {}
    assert(choice.remove(idx) =~= rest);
    assert forall|k: int| 0 <= k < pieces.len() implies puzzle.offers(
        pieces[k],
        #[trigger] choice[k],
    ) && board & choice[k].0 == 0 && (k != idx ==> p.0 & choice[k].0 == 0) by {
        if k != idx {
            let m = if k < idx { k } else { k - 1 };
            assert(others[m] == pieces[k]);
            assert(puzzle.offers(others[m], rest[m]) && (board | p.0) & rest[m].0 == 0);
            lemma_disjoint_or(board, p.0, rest[m].0);
        }
    }
    assert forall|a: int, b: int| 0 <= a < b < choice.len() implies (#[trigger] choice[a]).0 & (
    #[trigger] choice[b]).0 == 0 by {
        if a == idx {
            assert(p.0 & choice[b].0 == 0);
        } else if b == idx {
            assert(p.0 & choice[a].0 == 0);
            lemma_and_comm(p.0, choice[a].0);
        } else {
            let ma = if a < idx { a } else { a - 1 };
            let mb = if b < idx { b } else { b - 1 };
            assert(rest[ma].0 & rest[mb].0 == 0);
        }
    }
    lemma_union_choice_remove(choice, idx, choice.len() as int);
    lemma_or_laws(board, p.0, union_choice(rest, rest.len() as int));
}

/// A tiling gives each piece one placement: a completion of the board, whose
/// pairs of piece and placement are the entries of the tiling.
pub proof fn lemma_tiling_completion(
    puzzle: Puzzle,
    board: u64,
    pieces: Seq<usize>,
    ext: Seq<(usize, Bitset)>,
) -> (choice: Seq<Bitset>)
    requires
        is_tiling(puzzle, board, pieces, ext),
    ensures
        is_completion(puzzle, board, pieces, choice),
        realises(ext, pieces, choice),
        forall|t: int|
            0 <= t < ext.len() ==> exists|k: int|
                0 <= k < pieces.len() && #[trigger] ext[t] == (#[trigger] pieces[k], choice[k]),
    decreases ext.len(),
{
    if ext.len() == 0 {
        lemma_or_laws(board, 0, 0);
        Seq::empty()
    } else {
        let p = ext[0].1;
        let idx = lemma_tiling_peel(puzzle, board, pieces, ext);
        let others = pieces.remove(idx);
        let inner = ext.drop_first();
        let rest = lemma_tiling_completion(puzzle, board | p.0, others, inner);
        let choice = rest.insert(idx, p);
        lemma_completion_insert(puzzle, board, pieces, idx, p, rest);
        lemma_entries_insert(pieces, ext, idx, rest);
        choice
    }
}

/// The entries of a tiling are the pairs of the choice with the first
/// placement put in.
proof fn lemma_entries_insert(
    pieces: Seq<usize>,
    ext: Seq<(usize, Bitset)>,
    idx: int,
    rest: Seq<Bitset>,
)
    requires
        ext.len() > 0,
        0 <= idx < pieces.len(),
        pieces[idx] == ext[0].0,
        rest.len() == pieces.len() - 1,
        realises(ext.drop_first(), pieces.remove(idx), rest),
        forall|t: int|
            0 <= t < ext.drop_first().len() ==> exists|k: int|
                0 <= k < pieces.remove(idx).len() && #[trigger] ext.drop_first()[t] == (
                    #[trigger] pieces.remove(idx)[k],
                    rest[k],
                ),
    ensures
        realises(ext, pieces, rest.insert(idx, ext[0].1)),
        forall|t: int|
            0 <= t < ext.len() ==> exists|k: int|
                0 <= k < pieces.len() && #[trigger] ext[t] == (
                    #[trigger] pieces[k],
                    rest.insert(idx, ext[0].1)[k],
                ),
{
    let p = ext[0].1;
    let others = pieces.remove(idx);
    let inner = ext.drop_first();
    let choice = rest.insert(idx, p);
    assert(choice[idx] == p);
    assert forall|k: int| 0 <= k < pieces.len() && k != idx implies #[trigger] choice[k]
        == rest[if k < idx { k } else { k - 1 }] by {}
    assert forall|k: int| 0 <= k < pieces.len() implies ext.contains(
        (#[trigger] pieces[k], choice[k]),
    ) by {
        if k == idx {
            assert(ext[0] == (pieces[k], choice[k]));
        } else {
            let m = if k < idx { k } else { k - 1 };
            assert(others[m] == pieces[k]);
            assert(inner.contains((others[m], rest[m])));
            let w = choose|w: int| 0 <= w < inner.len() && inner[w] == (others[m], rest[m]);
            assert(ext[w + 1] == inner[w]);
        }
    }
    assert forall|t: int| 0 <= t < ext.len() implies exists|k: int|
        0 <= k < pieces.len() && #[trigger] ext[t] == (#[trigger] pieces[k], choice[k]) by {
        if t == 0 {
            assert(ext[0] == (pieces[idx], choice[idx]));
        } else {
            assert(inner[t - 1] == ext[t]);
            let m = choose|m: int|
                0 <= m < others.len() && #[trigger] inner[t - 1] == (#[trigger] others[m], rest[m]);
            let k = if m < idx { m } else { m + 1 };
            assert(others[m] == pieces[k]);
            assert(ext[t] == (pieces[k], choice[k]));
        }
    }
}

/// Every stack of one result of the search is a stack of every other result
/// of the same search.
pub proof fn lemma_searched_same_stack(
    puzzle: Puzzle,
    start: Arrangement,
    pieces: Seq<usize>,
    sols1: Seq<Arrangement>,
    sols2: Seq<Arrangement>,
    i: int,
) -> (j: int)
    requires
        searched(puzzle, start, pieces, sols1),
        searched(puzzle, start, pieces, sols2),
        0 <= i < sols1.len(),
    ensures
        0 <= j < sols2.len(),
        sols2[j].placements@ == sols1[i].placements@,
        sols2[j].occupied == sols1[i].occupied,
{
    let base = start.placements@;
    let n = base.len() as int;
    let board = start.occupied.0;
    assert(solves(puzzle, base, board, pieces, sols1[i]));
    let e1 = tail(sols1[i], n);
    let choice = lemma_tiling_completion(puzzle, board, pieces, e1);
    assert(found(sols2, 0, n, pieces, choice));
    let j = choose|j: int| 0 <= j < sols2.len() && realises(tail(#[trigger] sols2[j], n), pieces, choice);
    assert(solves(puzzle, base, board, pieces, sols2[j]));
    let e2 = tail(sols2[j], n);
    assert forall|t: int| 0 <= t < e1.len() implies e2.contains(#[trigger] e1[t]) by {
        let k = choose|k: int|
            0 <= k < pieces.len() && #[trigger] e1[t] == (#[trigger] pieces[k], choice[k]);
        assert(e2.contains((pieces[k], choice[k])));
    }
    lemma_same_tiling(puzzle, board, pieces, e1, e2);
    let s1 = sols1[i].placements@;
    let s2 = sols2[j].placements@;
    assert(s1 =~= s2) by {
        assert forall|w: int| 0 <= w < s1.len() implies s1[w] == s2[w] by {
            if w < n {
                assert(s1.subrange(0, n)[w] == s2.subrange(0, n)[w]);
            } else {
                assert(e1[w - n] == e2[w - n]);
            }
        }
    }
    j
}

/// One result of a search is no longer than another.
proof fn lemma_searched_at_most(
    puzzle: Puzzle,
    start: Arrangement,
    pieces: Seq<usize>,
    sols1: Seq<Arrangement>,
    sols2: Seq<Arrangement>,
)
    requires
        searched(puzzle, start, pieces, sols1),
        searched(puzzle, start, pieces, sols2),
    ensures
        sols1.len() <= sols2.len(),
{
    let f = |i: int|
        choose|j: int| 0 <= j < sols2.len() && sols2[j].placements@ == sols1[i].placements@;
    let from = set_int_range(0, sols1.len() as int);
    let to = set_int_range(0, sols2.len() as int);
    lemma_int_range(0, sols1.len() as int);
    lemma_int_range(0, sols2.len() as int);
    assert forall|i: int| from.contains(i) implies 0 <= #[trigger] f(i) < sols2.len()
        && sols2[f(i)].placements@ == sols1[i].placements@ by {
        let j = lemma_searched_same_stack(puzzle, start, pieces, sols1, sols2, i);
    }
    assert(injective_on(f, from)) by {
        assert forall|a: int, b: int|
            from.contains(a) && from.contains(b) && #[trigger] f(a) == #[trigger] f(b) implies a
            == b by {
            assert(sols1[a].placements@ == sols1[b].placements@);
            if a < b {
                assert(distinct(sols1, 0));
            }
            if b < a {
                assert(distinct(sols1, 0));
            }
        }
    }
    let image = from.map(f);
    lemma_map_size(from, image, f);
    assert(image.subset_of(to)) by {
        assert forall|j: int| image.contains(j) implies to.contains(j) by {
            let i = choose|i: int| from.contains(i) && j == f(i);
            assert(0 <= f(i) < sols2.len());
        }
    }
    lemma_len_subset(image, to);
}

/// The number of solutions is determined by the puzzle, the starting
/// arrangement and the pieces: any two results of the same search are of the
/// same length.
pub proof fn lemma_searched_count(
    puzzle: Puzzle,
    start: Arrangement,
    pieces: Seq<usize>,
    sols1: Seq<Arrangement>,
    sols2: Seq<Arrangement>,
)
    requires
        searched(puzzle, start, pieces, sols1),
        searched(puzzle, start, pieces, sols2),
    ensures
        sols1.len() == sols2.len(),
{
    lemma_searched_at_most(puzzle, start, pieces, sols1, sols2);
    lemma_searched_at_most(puzzle, start, pieces, sols2, sols1);
}

/// `sols` are the completions of `start` in which piece `pieces[idx]` holds the
/// cell `cube`: each of them once, and no other arrangement.
pub open spec fn searched_piece(
    puzzle: Puzzle,
    start: Arrangement,
    pieces: Seq<usize>,
    idx: int,
    cube: int,
    sols: Seq<Arrangement>,
) -> bool {
    &&& sound(puzzle, start.placements@, start.occupied.0, pieces, sols, 0)
    &&& distinct(sols, 0)
    &&& forall|i: int|
        0 <= i < sols.len() ==> (#[trigger] sols[i]).placements@[start.placements@.len() as int].0
            == pieces[idx]
    &&& forall|choice: Seq<Bitset>|
        #[trigger] is_completion(puzzle, start.occupied.0, pieces, choice) && bit(
            choice[idx].0,
            cube,
        ) ==> found(sols, 0, start.placements@.len() as int, pieces, choice)
}

/// The entry of `sol` at `at` places one of the first `n` pieces.
pub open spec fn headed(sol: Arrangement, at: int, pieces: Seq<usize>, n: int) -> bool {
    exists|k: int| 0 <= k < n && sol.placements@[at].0 == #[trigger] pieces[k]
}

/// The first `n` lists, one after the other.
pub open spec fn joined(parts: Seq<Seq<Arrangement>>, n: int) -> Seq<Arrangement>
    decreases n,
{
    if n <= 0 {
        Seq::empty()
    } else {
        joined(parts, n - 1) + parts[n - 1]
    }
}

/// The first `n` lists joined hold the completions in which one of the first
/// `n` pieces holds the cell, each once.
proof fn lemma_joined(
    puzzle: Puzzle,
    start: Arrangement,
    pieces: Seq<usize>,
    cube: int,
    parts: Seq<Seq<Arrangement>>,
    n: int,
)
    requires
        ids_ok(puzzle, pieces),
        parts.len() == pieces.len(),
        0 <= n <= pieces.len(),
        forall|idx: int|
            0 <= idx < pieces.len() ==> searched_piece(
                puzzle,
                start,
                pieces,
                idx,
                cube,
                #[trigger] parts[idx],
            ),
    ensures
        sound(puzzle, start.placements@, start.occupied.0, pieces, joined(parts, n), 0),
        distinct(joined(parts, n), 0),
        forall|i: int|
            0 <= i < joined(parts, n).len() ==> headed(
                #[trigger] joined(parts, n)[i],
                start.placements@.len() as int,
                pieces,
                n,
            ),
        forall|choice: Seq<Bitset>|
            #[trigger] is_completion(puzzle, start.occupied.0, pieces, choice) && covered_before(
                choice,
                cube,
                n,
            ) ==> found(joined(parts, n), 0, start.placements@.len() as int, pieces, choice),
    decreases n,
{
    let n0 = start.placements@.len() as int;
    let board = start.occupied.0;
    if n > 0 {
        lemma_joined(puzzle, start, pieces, cube, parts, n - 1);
        let head = joined(parts, n - 1);
        let last = parts[n - 1];
        let all = joined(parts, n);
        assert(searched_piece(puzzle, start, pieces, n - 1, cube, last));
        assert forall|i: int| 0 <= i < all.len() implies solves(
            puzzle,
            start.placements@,
            board,
            pieces,
            #[trigger] all[i],
        ) && headed(all[i], n0, pieces, n) by {
            if i < head.len() {
                assert(all[i] == head[i]);
                assert(headed(head[i], n0, pieces, n - 1));
                let k = choose|k: int|
                    0 <= k < n - 1 && head[i].placements@[n0].0 == #[trigger] pieces[k];
                assert(0 <= k < n && all[i].placements@[n0].0 == pieces[k]);
            } else {
                assert(all[i] == last[i - head.len()]);
                assert(all[i].placements@[n0].0 == pieces[n - 1]);
            }
        }
        assert forall|a: int, b: int| 0 <= a < b < all.len() implies (#[trigger] all[a]).placements@
            != (#[trigger] all[b]).placements@ by {
            if b < head.len() {
                assert(all[a] == head[a] && all[b] == head[b]);
            } else if a < head.len() {
                assert(all[a] == head[a] && all[b] == last[b - head.len()]);
                assert(headed(head[a], n0, pieces, n - 1));
                let k = choose|k: int|
                    0 <= k < n - 1 && head[a].placements@[n0].0 == #[trigger] pieces[k];
                assert(pieces[k] != pieces[n - 1]);
                assert(last[b - head.len()].placements@[n0].0 == pieces[n - 1]);
            } else {
                assert(all[a] == last[a - head.len()] && all[b] == last[b - head.len()]);
            }
        }
        assert forall|choice: Seq<Bitset>|
            #[trigger] is_completion(puzzle, board, pieces, choice) && covered_before(
                choice,
                cube,
                n,
            ) implies found(all, 0, n0, pieces, choice) by {
            if covered_before(choice, cube, n - 1) {
                assert(found(head, 0, n0, pieces, choice));
                let i = choose|i: int|
                    0 <= i < head.len() && realises(tail(#[trigger] head[i], n0), pieces, choice);
                assert(all[i] == head[i]);
            } else {
                let k = choose|k: int|
                    0 <= k < n && k < choice.len() && bit((#[trigger] choice[k]).0, cube);
                assert(k == n - 1);
                assert(found(last, 0, n0, pieces, choice));
                let i = choose|i: int|
                    0 <= i < last.len() && realises(tail(#[trigger] last[i], n0), pieces, choice);
                assert(all[head.len() + i] == last[i]);
            }
        }
    }
}

/// The search may be shared out by the piece that takes the lowest empty
/// cell: the results for the single pieces, one after the other, are a result
/// of the whole search.
pub proof fn lemma_split_search(
    puzzle: Puzzle,
    start: Arrangement,
    pieces: Seq<usize>,
    cube: int,
    parts: Seq<Seq<Arrangement>>,
)
    requires
        valid_cube(puzzle, start, cube),
        ids_ok(puzzle, pieces),
        parts.len() == pieces.len(),
        forall|idx: int|
            0 <= idx < pieces.len() ==> searched_piece(
                puzzle,
                start,
                pieces,
                idx,
                cube,
                #[trigger] parts[idx],
            ),
        forall|idx: int|
            0 <= idx < pieces.len() ==> (start.wf() ==> crate::solver::all_wf(
                #[trigger] parts[idx],
                0,
            )),
    ensures
        searched(puzzle, start, pieces, joined(parts, parts.len() as int)),
{
    let n = pieces.len() as int;
    let n0 = start.placements@.len() as int;
    let board = start.occupied.0;
    let all = joined(parts, n);
    lemma_joined(puzzle, start, pieces, cube, parts, n);
    lemma_dim_bounds(puzzle.dim);
    assert forall|choice: Seq<Bitset>|
        #[trigger] is_completion(puzzle, board, pieces, choice) implies found(
        all,
        0,
        n0,
        pieces,
        choice,
    ) by {
        lemma_bit_full(cell_count(puzzle.dim), cube);
        lemma_bit_or(board, union_choice(choice, n), cube);
        let k = lemma_union_choice_bit(choice, n, cube);
        assert(bit(choice[k].0, cube));
        assert(covered_before(choice, cube, n));
    }
    if start.wf() {
        lemma_joined_wf(parts, n);
    }
}

/// `cube` is the lowest empty cell of the starting arrangement, a cell of the
/// cuboid.
pub open spec fn valid_cube(puzzle: Puzzle, start: Arrangement, cube: int) -> bool {
    &&& crate::coord::valid_dim(puzzle.dim)
    &&& lowest_empty(start.occupied.0, cube)
    &&& cube < cell_count(puzzle.dim)
}

/// Lists of arrangements that keep the invariant join to such a list.
proof fn lemma_joined_wf(parts: Seq<Seq<Arrangement>>, n: int)
    requires
        0 <= n <= parts.len(),
        forall|idx: int| 0 <= idx < parts.len() ==> crate::solver::all_wf(#[trigger] parts[idx], 0),
    ensures
        crate::solver::all_wf(joined(parts, n), 0),
    decreases n,
{
    if n > 0 {
        lemma_joined_wf(parts, n - 1);
        let head = joined(parts, n - 1);
        let last = parts[n - 1];
        let all = joined(parts, n);
        assert(crate::solver::all_wf(last, 0));
        assert forall|i: int| 0 <= i < all.len() implies (#[trigger] all[i]).wf() by {
            if i < head.len() {
                assert(all[i] == head[i]);
            } else {
                assert(all[i] == last[i - head.len()]);
            }
        }
    }
}

} // verus!
