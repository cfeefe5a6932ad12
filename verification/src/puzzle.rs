//! The puzzle and the search state.

use vstd::prelude::*;
use crate::bitset::{
    full_mask, within, Bitset, Board, Placement, lemma_disjoint_or, lemma_xor_undoes_or,
};
use crate::coord::{cell_count, valid_dim, Coord, lemma_dim_bounds};
use crate::piece::Piece;

verus! {

/// A cuboid and the pieces that are to fill it.
pub struct Puzzle {
    pub name: String,
    pub pieces: Vec<Piece>,
    pub lookup: Vec<Vec<(usize, Placement)>>,
    pub dim: Coord,
}

/// The union of the placements of a stack.
pub open spec fn union_of(entries: Seq<(usize, Bitset)>) -> u64
    decreases entries.len(),
{
    if entries.len() == 0 {
        0
    } else {
        union_of(entries.drop_last()) | entries.last().1.0
    }
}

/// No two placements of the stack share a cell.
pub open spec fn pairwise_disjoint(entries: Seq<(usize, Bitset)>) -> bool {
    forall|i: int, j: int|
        0 <= i < j < entries.len() ==> (#[trigger] entries[i]).1.0 & (#[trigger] entries[j]).1.0
            == 0
}

/// A word that misses every placement of a stack misses their union.
pub proof fn lemma_union_disjoint(entries: Seq<(usize, Bitset)>, p: u64)
    requires
        forall|i: int| 0 <= i < entries.len() ==> (#[trigger] entries[i]).1.0 & p == 0,
    ensures
        union_of(entries) & p == 0,
    decreases entries.len(),
{
    if entries.len() == 0 {
        assert(0u64 & p == 0) by (bit_vector);
    } else {
        let head = entries.drop_last();
        assert forall|i: int| 0 <= i < head.len() implies (#[trigger] head[i]).1.0 & p == 0 by {
            assert(head[i] == entries[i]);
        }
        lemma_union_disjoint(head, p);
        assert(entries.last() == entries[entries.len() - 1]);
        lemma_disjoint_or(union_of(head), entries.last().1.0, p);
    }
}

/// `r` is the piece of the first entry of the stack that holds the cell, or
/// nothing if no entry holds it.
pub open spec fn owner_is(entries: Seq<(usize, Bitset)>, cell: int, r: Option<usize>) -> bool {
    match r {
        Some(id) => exists|k: int|
            0 <= k < entries.len() && (#[trigger] entries[k]).0 == id && entries[k].1.has(cell)
                && forall|j: int| 0 <= j < k ==> !(#[trigger] entries[j]).1.has(cell),
        None => forall|k: int| 0 <= k < entries.len() ==> !(#[trigger] entries[k]).1.has(cell),
    }
}

/// What is shown for a cell: nothing for a cell that is not occupied, else the
/// piece that holds it.
pub open spec fn cell_shown(a: Arrangement, cell: int, r: Option<usize>) -> bool {
    if a.occupied.has(cell) {
        owner_is(a.placements@, cell, r)
    } else {
        r.is_none()
    }
}

/// A partial assignment of pieces to placements: the cells that are taken, and
/// the stack of piece and placement pairs that took them.
#[derive(Debug)]
pub struct Arrangement {
    pub occupied: Board,
    pub placements: Vec<(usize, Placement)>,
}

impl Arrangement {
    /// The occupied mask is the union of the placements on the stack, and those
    /// are pairwise disjoint.
    pub open spec fn wf(self) -> bool {
        &&& self.occupied.0 == union_of(self.placements@)
        &&& pairwise_disjoint(self.placements@)
    }

    /// The empty arrangement.
    pub fn new() -> (r: Arrangement)
        ensures
            r.occupied.0 == 0,
            r.placements@.len() == 0,
            r.wf(),
    {
        Arrangement { occupied: Bitset::new(), placements: Vec::new() }
    }

    /// Puts a placement of a piece on the stack.
    pub fn push(&mut self, piece: usize, placement: Placement)
        ensures
            final(self).occupied.0 == old(self).occupied.0 | placement.0,
            final(self).placements@ == old(self).placements@.push((piece, placement)),
            old(self).wf() && old(self).occupied.0 & placement.0 == 0 ==> final(self).wf(),
    {
        proof {
            let before = self.placements@;
            let after = before.push((piece, placement));
            assert(after.drop_last() =~= before);
            if self.wf() && self.occupied.0 & placement.0 == 0 {
                assert forall|i: int, j: int| 0 <= i < j < after.len() implies (
                #[trigger] after[i]).1.0 & (#[trigger] after[j]).1.0 == 0 by {
                    if j == before.len() {
                        lemma_union_member(before, i);
                        lemma_disjoint_or(before[i].1.0, union_of(before), placement.0);
                    } else {
                        assert(after[i] == before[i] && after[j] == before[j]);
                    }
                }
            }
        }
        self.occupied = self.occupied.union(placement);
        self.placements.push((piece, placement));
    }

    /// Takes the last placement off the stack, if there is one.
    pub fn pop(&mut self) -> (r: Option<(usize, Placement)>)
        ensures
            old(self).placements@.len() == 0 ==> {
                &&& r.is_none()
                &&& final(self).occupied == old(self).occupied
                &&& final(self).placements@ == old(self).placements@
            },
            old(self).placements@.len() > 0 ==> {
                &&& r == Some(old(self).placements@.last())
                &&& final(self).placements@ == old(self).placements@.drop_last()
                &&& final(self).occupied.0 == old(self).occupied.0 ^ old(self).placements@.last().1.0
            },
            old(self).wf() ==> final(self).wf(),
    {
        let ghost before = self.placements@;
        match self.placements.pop() {
            Some((piece, placement)) => {
                proof {
                    let rest = before.drop_last();
                    assert(before.last() == before[before.len() - 1]);
                    if old(self).wf() {
                        assert forall|i: int| 0 <= i < rest.len() implies (
                        #[trigger] rest[i]).1.0 & placement.0 == 0 by {
                            assert(rest[i] == before[i]);
                        }
                        lemma_union_disjoint(rest, placement.0);
                        lemma_xor_undoes_or(union_of(rest), placement.0);
                        assert forall|i: int, j: int| 0 <= i < j < rest.len() implies (
                        #[trigger] rest[i]).1.0 & (#[trigger] rest[j]).1.0 == 0 by {
                            assert(rest[i] == before[i] && rest[j] == before[j]);
                        }
                    }
                }
                self.occupied = self.occupied.xor(placement);
                Some((piece, placement))
            },
            None => None,
        }
    }

    /// The piece whose placement on the stack holds the cell with index
    /// `index`: the first such entry, if there is one.
    pub fn owner(&self, index: usize) -> (r: Option<usize>)
        requires
            index < 64,
        ensures
            owner_is(self.placements@, index as int, r),
    {
        let mut k: usize = 0;
        while k < self.placements.len()
            invariant
                index < 64,
                k <= self.placements@.len(),
                forall|j: int| 0 <= j < k ==> !(#[trigger] self.placements@[j]).1.has(index as int),
            decreases self.placements@.len() - k,
        {
            let entry = self.placements[k];
            if entry.1.get(index) {
                return Some(entry.0);
            }
            k = k + 1;
        }
        None
    }
}

impl Clone for Arrangement {
    fn clone(&self) -> (r: Self)
        ensures
            r.occupied == self.occupied,
            r.placements@ == self.placements@,
    {
        let mut placements: Vec<(usize, Placement)> = Vec::new();
        let mut i: usize = 0;
        while i < self.placements.len()
            invariant
                i <= self.placements@.len(),
                placements@ == self.placements@.subrange(0, i as int),
            decreases self.placements@.len() - i,
        {
            placements.push(self.placements[i]);
            i = i + 1;
            assert(placements@ =~= self.placements@.subrange(0, i as int));
        }
        assert(placements@ =~= self.placements@);
        Arrangement { occupied: self.occupied, placements }
    }
}

/// Each placement of a stack is within the union of the stack.
pub proof fn lemma_union_member(entries: Seq<(usize, Bitset)>, i: int)
    requires
        0 <= i < entries.len(),
    ensures
        within(entries[i].1.0, union_of(entries)),
    decreases entries.len(),
{
    let head = entries.drop_last();
    assert(entries.last() == entries[entries.len() - 1]);
    crate::bitset::lemma_within_grow(union_of(head), entries.last().1.0, 0);
    if i < head.len() {
        lemma_union_member(head, i);
        assert(head[i] == entries[i]);
        crate::bitset::lemma_within_grow(entries[i].1.0, union_of(head), entries.last().1.0);
    }
}

/// A puzzle whose pieces have the placement sets of their base poses is well
/// formed.
pub proof fn lemma_generated_wf(puzzle: Puzzle)
    requires
        valid_dim(puzzle.dim),
        forall|pid: int|
            0 <= pid < puzzle.pieces@.len() ==> (#[trigger] puzzle.pieces@[pid]).generated(
                puzzle.dim,
            ),
    ensures
        puzzle.wf(),
{
    let dim = puzzle.dim;
    assert forall|pid: int, j: int|
        0 <= pid < puzzle.pieces@.len() && 0 <= j < puzzle.pieces@[pid].placements@.len() implies {
        &&& (#[trigger] puzzle.placement(pid, j)).0 != 0
        &&& within(puzzle.placement(pid, j).0, puzzle.full())
    } by {
        assert(puzzle.pieces@[pid].generated(dim));
        crate::piece::lemma_placement_cell_count(puzzle.pieces@[pid].base@, dim, j);
    }
    assert forall|pid: int, i: int, j: int|
        0 <= pid < puzzle.pieces@.len() && 0 <= i < j < puzzle.pieces@[pid].placements@.len() implies #[trigger] puzzle.placement(
        pid,
        i,
    ) != #[trigger] puzzle.placement(pid, j) by {
        assert(puzzle.pieces@[pid].generated(dim));
        crate::piece::lemma_piece_placements_no_repeats(puzzle.pieces@[pid].base@, dim);
    }
}

/// Whether `p` is one of the placements of piece `pid` of the list.
pub open spec fn offered(pieces: Seq<Piece>, pid: usize, p: Bitset) -> bool {
    pid < pieces.len() && exists|j: int|
        0 <= j < pieces[pid as int].placements@.len() && #[trigger] pieces[pid as int].placements@[j]
            == p
}

/// Entry `a` stands before entry `b` in the order of the pieces and, for one
/// piece, in the order of its placements.
pub open spec fn in_order(pieces: Seq<Piece>, a: (usize, Bitset), b: (usize, Bitset)) -> bool {
    a.0 < b.0 || (a.0 == b.0 && a.0 < pieces.len() && exists|i: int, j: int|
        0 <= i < j < pieces[a.0 as int].placements@.len() && #[trigger] pieces[a.0 as int].placements@[i]
            == a.1 && #[trigger] pieces[a.0 as int].placements@[j] == b.1)
}

/// Placement `p` of piece `pid` is one of the first `n` pieces, or one of the
/// first `j` placements of piece `n`.
pub open spec fn listed_so_far(pieces: Seq<Piece>, e: (usize, Bitset), n: int, j: int) -> bool {
    e.0 < n || (e.0 == n && n < pieces.len() && exists|i: int|
        0 <= i < j && i < pieces[n].placements@.len() && #[trigger] pieces[n].placements@[i] == e.1)
}

/// `list` holds a pair for each placement of the first `n` pieces that holds
/// the cell, and nothing else, in the order of the pieces and of their
/// placements.
pub open spec fn lists_cell(pieces: Seq<Piece>, cell: int, list: Seq<(usize, Bitset)>, n: int) -> bool {
    &&& forall|a: int, b: int|
        0 <= a < b < list.len() ==> in_order(pieces, #[trigger] list[a], #[trigger] list[b])
    &&& forall|e: int|
        0 <= e < list.len() ==> offered(pieces, (#[trigger] list[e]).0, list[e].1) && list[e].1.has(
            cell,
        )
    &&& forall|pid: int, j: int|
        0 <= pid < n && pid < pieces.len() && 0 <= j < pieces[pid].placements@.len() && (
        #[trigger] pieces[pid].placements@[j]).has(cell) ==> list.contains(
            (pid as usize, pieces[pid].placements@[j]),
        )
}

/// For each of the 64 cell indices, the placements of all pieces that hold the
/// cell, each with the number of its piece.
pub fn build_lookup(pieces: &Vec<Piece>) -> (lookup: Vec<Vec<(usize, Placement)>>)
    ensures
        lookup@.len() == 64,
        forall|cell: int|
            0 <= cell < 64 ==> lists_cell(
                pieces@,
                cell,
                (#[trigger] lookup@[cell])@,
                pieces@.len() as int,
            ),
{
    let mut lookup: Vec<Vec<(usize, Placement)>> = Vec::new();
    let mut cell: usize = 0;
    while cell < 64
        invariant
            cell <= 64,
            lookup@.len() == cell,
            forall|c: int|
                0 <= c < cell ==> lists_cell(
                    pieces@,
                    c,
                    (#[trigger] lookup@[c])@,
                    pieces@.len() as int,
                ),
        decreases 64 - cell,
    {
        let mut list: Vec<(usize, Placement)> = Vec::new();
        let mut pid: usize = 0;
        while pid < pieces.len()
            invariant
                cell < 64,
                pid <= pieces@.len(),
                lists_cell(pieces@, cell as int, list@, pid as int),
                forall|e: int|
                    0 <= e < list@.len() ==> listed_so_far(pieces@, #[trigger] list@[e], pid as int, 0),
            decreases pieces@.len() - pid,
        {
            let piece = &pieces[pid];
            let mut j: usize = 0;
            while j < piece.placements.len()
                invariant
                    cell < 64,
                    pid < pieces@.len(),
                    piece.placements@ == pieces@[pid as int].placements@,
                    j <= piece.placements@.len(),
                    lists_cell(pieces@, cell as int, list@, pid as int),
                    forall|e: int|
                        0 <= e < list@.len() ==> offered(pieces@, (#[trigger] list@[e]).0, list@[e].1),
                    forall|e: int|
                        0 <= e < list@.len() ==> listed_so_far(
                            pieces@,
                            #[trigger] list@[e],
                            pid as int,
                            j as int,
                        ),
                    forall|i: int|
                        0 <= i < j && (#[trigger] piece.placements@[i]).has(cell as int)
                            ==> list@.contains((pid, piece.placements@[i])),
                decreases piece.placements@.len() - j,
            {
                let placement = piece.placements[j];
                let ghost before = list@;
                if placement.get(cell) {
                    list.push((pid, placement));
                    proof {
                        assert(list@[before.len() as int] == (pid, placement));
                        assert forall|a: int, b: int| 0 <= a < b < list@.len() implies in_order(
                            pieces@,
                            #[trigger] list@[a],
                            #[trigger] list@[b],
                        ) by {
                            assert(list@[a] == before[a]);
                            if b < before.len() {
                                assert(list@[b] == before[b]);
                            } else {
                                assert(listed_so_far(pieces@, before[a], pid as int, j as int));
                                if before[a].0 == pid {
                                    let i = choose|i: int|
                                        0 <= i < j && i < pieces@[pid as int].placements@.len()
                                            && #[trigger] pieces@[pid as int].placements@[i]
                                            == before[a].1;
                                    assert(pieces@[pid as int].placements@[j as int] == placement);
                                }
                            }
                        }
                        assert forall|e: int| 0 <= e < list@.len() implies listed_so_far(
                            pieces@,
                            #[trigger] list@[e],
                            pid as int,
                            j + 1,
                        ) by {
                            if e < before.len() {
                                assert(list@[e] == before[e]);
                                assert(listed_so_far(pieces@, before[e], pid as int, j as int));
                                if before[e].0 == pid {
                                    let i = choose|i: int|
                                        0 <= i < j && i < pieces@[pid as int].placements@.len()
                                            && #[trigger] pieces@[pid as int].placements@[i]
                                            == before[e].1;
                                    assert(0 <= i < j + 1);
                                }
                            } else {
                                assert(pieces@[pid as int].placements@[j as int] == placement);
                            }
                        }
                        assert forall|e: int| 0 <= e < list@.len() implies offered(
                            pieces@,
                            (#[trigger] list@[e]).0,
                            list@[e].1,
                        ) && list@[e].1.has(cell as int) by {
                            if e < before.len() {
                                assert(list@[e] == before[e]);
                            } else {
                                assert(pieces@[pid as int].placements@[j as int] == placement);
                            }
                        }
                        assert forall|q: int, i: int|
                            0 <= q < pid && q < pieces@.len() && 0 <= i
                                < pieces@[q].placements@.len() && (
                            #[trigger] pieces@[q].placements@[i]).has(cell as int) implies list@.contains(
                            (q as usize, pieces@[q].placements@[i]),
                        ) by {
                            let x = (q as usize, pieces@[q].placements@[i]);
                            assert(before.contains(x));
                            let w = choose|w: int| 0 <= w < before.len() && before[w] == x;
                            assert(list@[w] == x);
                        }
                        assert forall|i: int|
                            0 <= i < j + 1 && (#[trigger] piece.placements@[i]).has(
                                cell as int,
                            ) implies list@.contains((pid, piece.placements@[i])) by {
                            if i < j {
                                let x = (pid, piece.placements@[i]);
                                assert(before.contains(x));
                                let w = choose|w: int| 0 <= w < before.len() && before[w] == x;
                                assert(list@[w] == x);
                            }
                        }
                    }
                } else {
                    proof {
                        assert forall|e: int| 0 <= e < list@.len() implies listed_so_far(
                            pieces@,
                            #[trigger] list@[e],
                            pid as int,
                            j + 1,
                        ) by {
                            assert(listed_so_far(pieces@, list@[e], pid as int, j as int));
                            if list@[e].0 == pid {
                                let i = choose|i: int|
                                    0 <= i < j && i < pieces@[pid as int].placements@.len()
                                        && #[trigger] pieces@[pid as int].placements@[i]
                                        == list@[e].1;
                                assert(0 <= i < j + 1);
                            }
                        }
                    }
                }
                j = j + 1;
            }
            proof {
                assert forall|e: int| 0 <= e < list@.len() implies listed_so_far(
                    pieces@,
                    #[trigger] list@[e],
                    pid + 1,
                    0,
                ) by {
                    assert(listed_so_far(pieces@, list@[e], pid as int, j as int));
                }
                assert forall|q: int, i: int|
                    0 <= q < pid + 1 && q < pieces@.len() && 0 <= i < pieces@[q].placements@.len()
                        && (#[trigger] pieces@[q].placements@[i]).has(
                        cell as int,
                    ) implies list@.contains((q as usize, pieces@[q].placements@[i])) by {
                    if q == pid {
                        assert(piece.placements@[i].has(cell as int));
                    }
                }
            }
            pid = pid + 1;
        }
        lookup.push(list);
        cell = cell + 1;
    }
    lookup
}

impl Puzzle {
    /// A puzzle with the given pieces, and the table of the placements that
    /// hold each cell.
    pub fn new(name: String, pieces: Vec<Piece>, dim: Coord) -> (r: Puzzle)
        ensures
            r.name == name,
            r.pieces == pieces,
            r.dim == dim,
            valid_dim(dim) && (forall|pid: int|
                0 <= pid < pieces@.len() ==> (#[trigger] pieces@[pid]).generated(dim)) ==> r.wf(),
            r.lookup@.len() == 64,
            forall|cell: int|
                0 <= cell < 64 ==> lists_cell(
                    pieces@,
                    cell,
                    (#[trigger] r.lookup@[cell])@,
                    pieces@.len() as int,
                ),
    {
        let lookup = build_lookup(&pieces);
        let r = Puzzle { name, pieces, lookup, dim };
        proof {
            if valid_dim(dim) && (forall|pid: int|
                0 <= pid < r.pieces@.len() ==> (#[trigger] r.pieces@[pid]).generated(dim)) {
                lemma_generated_wf(r);
            }
        }
        r
    }

    /// Whether the puzzle is well formed: see `wf`.
    pub fn check(&self) -> (r: bool)
        ensures
            r == self.wf(),
    {
        let d = self.dim;
        if !(1 <= d.x && d.x <= 64 && 1 <= d.y && d.y <= 64 && 1 <= d.z && d.z <= 64) {
            proof {
                if valid_dim(d) {
                    lemma_dim_bounds(d);
                }
            }
            return false;
        }
        assert(1 <= d.x * d.y <= 64 * 64) by (nonlinear_arith)
            requires
                1 <= d.x <= 64,
                1 <= d.y <= 64,
        ;
        if d.x * d.y > 64 {
            proof {
                let (a, b, c) = (d.x as int, d.y as int, d.z as int);
                assert(a * b * c >= a * b) by (nonlinear_arith)
                    requires
                        a * b >= 1,
                        c >= 1,
                ;
            }
            return false;
        }
        assert(d.x * d.y * d.z <= 64 * 64) by (nonlinear_arith)
            requires
                1 <= d.x * d.y <= 64,
                1 <= d.z <= 64,
        ;
        if d.x * d.y * d.z > 64 {
            return false;
        }
        let full = self.full_board();
        let mut pid: usize = 0;
        while pid < self.pieces.len()
            invariant
                valid_dim(self.dim),
                full.0 == self.full(),
                pid <= self.pieces@.len(),
                forall|q: int, j: int|
                    0 <= q < pid && 0 <= j < self.pieces@[q].placements@.len() ==> {
                        &&& (#[trigger] self.placement(q, j)).0 != 0
                        &&& within(self.placement(q, j).0, self.full())
                    },
                forall|q: int, i: int, j: int|
                    0 <= q < pid && 0 <= i < j < self.pieces@[q].placements@.len()
                        ==> #[trigger] self.placement(q, i) != #[trigger] self.placement(q, j),
            decreases self.pieces@.len() - pid,
        {
            let piece = &self.pieces[pid];
            let mut j: usize = 0;
            while j < piece.placements.len()
                invariant
                    pid < self.pieces@.len(),
                    piece.placements@ == self.pieces@[pid as int].placements@,
                    full.0 == self.full(),
                    j <= piece.placements@.len(),
                    forall|i: int|
                        0 <= i < j ==> {
                            &&& (#[trigger] self.placement(pid as int, i)).0 != 0
                            &&& within(self.placement(pid as int, i).0, self.full())
                        },
                    forall|a: int, b: int|
                        0 <= a < b < j ==> #[trigger] self.placement(pid as int, a)
                            != #[trigger] self.placement(pid as int, b),
                decreases piece.placements@.len() - j,
            {
                let p = piece.placements[j];
                assert(p == self.placement(pid as int, j as int));
                if p.0 == 0 || (p.0 & !full.0) != 0 {
                    return false;
                }
                let mut i: usize = 0;
                while i < j
                    invariant
                        i <= j,
                        j < piece.placements@.len(),
                        pid < self.pieces@.len(),
                        piece.placements@ == self.pieces@[pid as int].placements@,
                        p == self.placement(pid as int, j as int),
                        forall|a: int|
                            0 <= a < i ==> #[trigger] self.placement(pid as int, a) != p,
                    decreases j - i,
                {
                    if piece.placements[i].0 == p.0 {
                        assert(self.placement(pid as int, i as int) == self.placement(
                            pid as int,
                            j as int,
                        ));
                        return false;
                    }
                    i = i + 1;
                }
                j = j + 1;
            }
            pid = pid + 1;
        }
        true
    }

    /// The full board of the puzzle's cuboid.
    pub open spec fn full(self) -> u64 {
        full_mask(cell_count(self.dim))
    }

    /// Placement `j` of piece `pid`.
    pub open spec fn placement(self, pid: int, j: int) -> Bitset {
        self.pieces@[pid].placements@[j]
    }

    /// Whether `p` is one of the placements of piece `pid`.
    pub open spec fn offers(self, pid: usize, p: Bitset) -> bool {
        pid < self.pieces@.len() && exists|j: int|
            0 <= j < self.pieces@[pid as int].placements@.len() && #[trigger] self.placement(
                pid as int,
                j,
            ) == p
    }

    /// The dimension is valid, every placement is a non-empty set of cells of the
    /// cuboid, and no piece lists a placement twice.
    pub open spec fn wf(self) -> bool {
        &&& valid_dim(self.dim)
        &&& forall|pid: int, j: int|
            0 <= pid < self.pieces@.len() && 0 <= j < self.pieces@[pid].placements@.len() ==> {
                &&& (#[trigger] self.placement(pid, j)).0 != 0
                &&& within(self.placement(pid, j).0, self.full())
            }
        &&& forall|pid: int, i: int, j: int|
            0 <= pid < self.pieces@.len() && 0 <= i < j < self.pieces@[pid].placements@.len()
                ==> #[trigger] self.placement(pid, i) != #[trigger] self.placement(pid, j)
    }

    /// The number of cells of the cuboid.
    pub fn cells(&self) -> (n: usize)
        requires
            valid_dim(self.dim),
        ensures
            n == cell_count(self.dim),
            1 <= n <= 64,
    {
        proof {
            lemma_dim_bounds(self.dim);
        }
        (self.dim.x * self.dim.y * self.dim.z) as usize
    }

    /// The completely filled board.
    pub fn full_board(&self) -> (r: Board)
        requires
            valid_dim(self.dim),
        ensures
            r.0 == self.full(),
    {
        Bitset::full(self.cells())
    }

    /// The picture of an arrangement: `Dy` rows, the row of the greatest `y`
    /// first; in each row `Dz` slices side by side, in each slice `Dx` cells, and
    /// for each cell the piece that holds it.
    pub fn show(&self, arrangement: &Arrangement) -> (rows: Vec<Vec<Vec<Option<usize>>>>)
        requires
            valid_dim(self.dim),
        ensures
            rows@.len() == self.dim.y,
            forall|i: int| 0 <= i < self.dim.y ==> (#[trigger] rows@[i])@.len() == self.dim.z,
            forall|i: int, z: int|
                0 <= i < self.dim.y && 0 <= z < self.dim.z ==> (#[trigger] rows@[i]@[z])@.len()
                    == self.dim.x,
            forall|i: int, z: int, x: int|
                0 <= i < self.dim.y && 0 <= z < self.dim.z && 0 <= x < self.dim.x ==> cell_shown(
                    *arrangement,
                    (Coord { x: x as i64, y: (self.dim.y - 1 - i) as i64, z: z as i64 }).index(
                        self.dim,
                    ),
                    #[trigger] rows@[i]@[z]@[x],
                ),
    {
        let dim = self.dim;
        proof {
            lemma_dim_bounds(dim);
        }
        let mut rows: Vec<Vec<Vec<Option<usize>>>> = Vec::new();
        let mut i: i64 = 0;
        while i < dim.y
            invariant
                valid_dim(dim),
                dim.x <= 64 && dim.y <= 64 && dim.z <= 64,
                0 <= i <= dim.y,
                rows@.len() == i,
                forall|a: int| 0 <= a < i ==> (#[trigger] rows@[a])@.len() == dim.z,
                forall|a: int, z: int|
                    0 <= a < i && 0 <= z < dim.z ==> (#[trigger] rows@[a]@[z])@.len() == dim.x,
                forall|a: int, z: int, x: int|
                    0 <= a < i && 0 <= z < dim.z && 0 <= x < dim.x ==> cell_shown(
                        *arrangement,
                        (Coord { x: x as i64, y: (dim.y - 1 - a) as i64, z: z as i64 }).index(dim),
                        #[trigger] rows@[a]@[z]@[x],
                    ),
            decreases dim.y - i,
        {
            let y: i64 = dim.y - 1 - i;
            let mut row: Vec<Vec<Option<usize>>> = Vec::new();
            let mut z: i64 = 0;
            while z < dim.z
                invariant
                    valid_dim(dim),
                    dim.x <= 64 && dim.y <= 64 && dim.z <= 64,
                    0 <= y < dim.y,
                    0 <= z <= dim.z,
                    row@.len() == z,
                    forall|c: int| 0 <= c < z ==> (#[trigger] row@[c])@.len() == dim.x,
                    forall|c: int, x: int|
                        0 <= c < z && 0 <= x < dim.x ==> cell_shown(
                            *arrangement,
                            (Coord { x: x as i64, y, z: c as i64 }).index(dim),
                            #[trigger] row@[c]@[x],
                        ),
                decreases dim.z - z,
            {
                let mut slice: Vec<Option<usize>> = Vec::new();
                let mut x: i64 = 0;
                while x < dim.x
                    invariant
                        valid_dim(dim),
                        0 <= y < dim.y,
                        0 <= z < dim.z,
                        0 <= x <= dim.x,
                        slice@.len() == x,
                        forall|c: int|
                            0 <= c < x ==> cell_shown(
                                *arrangement,
                                (Coord { x: c as i64, y, z }).index(dim),
                                #[trigger] slice@[c],
                            ),
                    decreases dim.x - x,
                {
                    let index = (Coord { x, y, z }).to_index(dim);
                    let shown = if arrangement.occupied.get(index) {
                        arrangement.owner(index)
                    } else {
                        None
                    };
                    slice.push(shown);
                    x = x + 1;
                }
                row.push(slice);
                z = z + 1;
            }
            rows.push(row);
            i = i + 1;
        }
        rows
    }

    /// The eight corner cells of the cuboid, the far corner first and the origin
    /// last.
    pub fn corners(&self) -> (r: Vec<Coord>)
        requires
            valid_dim(self.dim),
        ensures
            r@ == seq![
                Coord { x: (self.dim.x - 1) as i64, y: (self.dim.y - 1) as i64, z: (self.dim.z - 1) as i64 },
                Coord { x: 0, y: (self.dim.y - 1) as i64, z: (self.dim.z - 1) as i64 },
                Coord { x: (self.dim.x - 1) as i64, y: 0, z: (self.dim.z - 1) as i64 },
                Coord { x: 0, y: 0, z: (self.dim.z - 1) as i64 },
                Coord { x: (self.dim.x - 1) as i64, y: (self.dim.y - 1) as i64, z: 0 },
                Coord { x: 0, y: (self.dim.y - 1) as i64, z: 0 },
                Coord { x: (self.dim.x - 1) as i64, y: 0, z: 0 },
                Coord { x: 0, y: 0, z: 0 },
            ],
    {
        let x: i64 = self.dim.x - 1;
        let y: i64 = self.dim.y - 1;
        let z: i64 = self.dim.z - 1;
        let mut r: Vec<Coord> = Vec::new();
        r.push(Coord { x, y, z });
        r.push(Coord { x: 0, y, z });
        r.push(Coord { x, y: 0, z });
        r.push(Coord { x: 0, y: 0, z });
        r.push(Coord { x, y, z: 0 });
        r.push(Coord { x: 0, y, z: 0 });
        r.push(Coord { x, y: 0, z: 0 });
        r.push(Coord { x: 0, y: 0, z: 0 });
        assert(r@ =~= seq![
            Coord { x, y, z },
            Coord { x: 0, y, z },
            Coord { x, y: 0, z },
            Coord { x: 0, y: 0, z },
            Coord { x, y, z: 0 },
            Coord { x: 0, y, z: 0 },
            Coord { x, y: 0, z: 0 },
            Coord { x: 0, y: 0, z: 0 },
        ]);
        r
    }
}

} // verus!
