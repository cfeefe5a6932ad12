//! Poses of a piece: cell lists, their masks, the 24 rotations and the
//! move to the origin corner.

use vstd::prelude::*;
use crate::bitset::{bit, single, Bitset, Placement, lemma_bit_or, lemma_bit_single, lemma_bit_zero};
use crate::coord::{valid_dim, cell_count, Coord, euclid_rem, lemma_dim_bounds, lemma_index_bound};

verus! {

/// One rigid pose of a piece: the list of its cells.
#[derive(Debug)]
pub struct Orientation(pub Vec<Coord>);

impl View for Orientation {
    type V = Seq<Coord>;

    open spec fn view(&self) -> Seq<Coord> {
        self.0@
    }
}

/// Every cell of the list lies in the cuboid.
pub open spec fn all_inside(cells: Seq<Coord>, dim: Coord) -> bool {
    forall|i: int| 0 <= i < cells.len() ==> (#[trigger] cells[i]).inside(dim)
}

/// No cell occurs twice in the list.
pub open spec fn distinct_cells(cells: Seq<Coord>) -> bool {
    forall|i: int, j: int| 0 <= i < j < cells.len() ==> cells[i] != cells[j]
}

/// The word with one bit set for each cell of the list.
pub open spec fn mask_of(cells: Seq<Coord>, dim: Coord) -> u64
    decreases cells.len(),
{
    if cells.len() == 0 {
        0
    } else {
        mask_of(cells.drop_last(), dim) | single(cells.last().index(dim))
    }
}

/// The list moved by `t`.
pub open spec fn translated(cells: Seq<Coord>, t: Coord) -> Seq<Coord> {
    Seq::new(cells.len(), |i: int| cells[i].plus(t))
}

/// A bit of the mask is set exactly when it is the index of a cell of the list.
pub proof fn lemma_mask_bits(cells: Seq<Coord>, dim: Coord, i: int)
    requires
        valid_dim(dim),
        all_inside(cells, dim),
    ensures
        bit(mask_of(cells, dim), i) <==> exists|k: int|
            0 <= k < cells.len() && (#[trigger] cells[k]).index(dim) == i,
    decreases cells.len(),
{
    if cells.len() == 0 {
        lemma_bit_zero(i);
    } else {
        let head = cells.drop_last();
        let last = cells.last();
        assert(last == cells[cells.len() - 1]);
        assert forall|k: int| 0 <= k < head.len() implies (#[trigger] head[k]).inside(dim) by {
            assert(head[k] == cells[k]);
        }
        lemma_mask_bits(head, dim, i);
        lemma_index_bound(last, dim);
        lemma_dim_bounds(dim);
        lemma_bit_or(mask_of(head, dim), single(last.index(dim)), i);
        if 0 <= i < 64 {
            lemma_bit_single(last.index(dim), i);
        }
        if bit(mask_of(cells, dim), i) {
            if bit(mask_of(head, dim), i) {
                let k = choose|k: int| 0 <= k < head.len() && (#[trigger] head[k]).index(dim) == i;
                assert(cells[k] == head[k]);
            } else {
                assert(cells[cells.len() - 1].index(dim) == i);
            }
        }
        if exists|k: int| 0 <= k < cells.len() && (#[trigger] cells[k]).index(dim) == i {
            let k = choose|k: int| 0 <= k < cells.len() && (#[trigger] cells[k]).index(dim) == i;
            if k < head.len() {
                assert(head[k] == cells[k]);
            }
        }
    }
}

/// The mask of cells of the cuboid is within the full board.
pub proof fn lemma_mask_within(cells: Seq<Coord>, dim: Coord)
    requires
        valid_dim(dim),
        all_inside(cells, dim),
    ensures
        crate::bitset::within(mask_of(cells, dim), crate::bitset::full_mask(cell_count(dim))),
    decreases cells.len(),
{
    let full = crate::bitset::full_mask(cell_count(dim));
    if cells.len() == 0 {
        assert(crate::bitset::within(0, full)) by (bit_vector);
    } else {
        let head = cells.drop_last();
        let last = cells.last();
        assert(last == cells[cells.len() - 1]);
        assert forall|k: int| 0 <= k < head.len() implies (#[trigger] head[k]).inside(dim) by {
            assert(head[k] == cells[k]);
        }
        lemma_mask_within(head, dim);
        lemma_index_bound(last, dim);
        lemma_dim_bounds(dim);
        crate::bitset::lemma_single_within_full(last.index(dim), cell_count(dim));
        crate::bitset::lemma_within_or(mask_of(head, dim), single(last.index(dim)), full);
    }
}

/// The mask of a list of distinct cells has as many set bits as the list has
/// cells.
pub proof fn lemma_mask_popcount(cells: Seq<Coord>, dim: Coord)
    requires
        valid_dim(dim),
        all_inside(cells, dim),
        distinct_cells(cells),
    ensures
        crate::bitset::popcount(mask_of(cells, dim)) == cells.len(),
    decreases cells.len(),
{
    if cells.len() == 0 {
        crate::bitset::lemma_count_bits_zero(64);
    } else {
        let head = cells.drop_last();
        let last = cells.last();
        assert(last == cells[cells.len() - 1]);
        assert forall|k: int| 0 <= k < head.len() implies (#[trigger] head[k]).inside(dim) by {
            assert(head[k] == cells[k]);
        }
        assert forall|a: int, b: int| 0 <= a < b < head.len() implies head[a] != head[b] by {
            assert(head[a] == cells[a] && head[b] == cells[b]);
        }
        lemma_mask_popcount(head, dim);
        lemma_index_bound(last, dim);
        lemma_dim_bounds(dim);
        lemma_mask_bits(head, dim, last.index(dim));
        if bit(mask_of(head, dim), last.index(dim)) {
            let k = choose|k: int|
                0 <= k < head.len() && (#[trigger] head[k]).index(dim) == last.index(dim);
            assert(head[k] == cells[k]);
            crate::coord::lemma_index_injective(cells[k], last, dim);
        }
        crate::bitset::lemma_count_bits_insert(mask_of(head, dim), last.index(dim), 64);
    }
}

/// A cell after one quarter turn about `axis` through the origin (0 for x, 1
/// for y, otherwise z).
pub open spec fn turn(c: Coord, axis: int) -> Coord {
    if axis == 0 {
        c.turn_x()
    } else if axis == 1 {
        c.turn_y()
    } else {
        c.turn_z()
    }
}

/// A cell after `n` quarter turns about `axis` through the origin.
pub open spec fn turn_n(c: Coord, axis: int, n: nat) -> Coord
    decreases n,
{
    if n == 0 {
        c
    } else {
        turn(turn_n(c, axis, (n - 1) as nat), axis)
    }
}

/// The cuboid's dimension after one quarter turn about `axis` (0 for x, 1 for
/// y, otherwise z).
pub open spec fn swap_dim(dim: Coord, axis: int) -> Coord {
    if axis == 0 {
        dim.swap_yz()
    } else if axis == 1 {
        dim.swap_xz()
    } else {
        dim.swap_xy()
    }
}

/// A cell after one quarter turn of the cuboid about `axis`.
pub open spec fn spin(c: Coord, dim: Coord, axis: int) -> Coord {
    if axis == 0 {
        c.spin_x(dim)
    } else if axis == 1 {
        c.spin_y(dim)
    } else {
        c.spin_z(dim)
    }
}

/// The dimension after `n` quarter turns about `axis`.
pub open spec fn swap_dim_n(dim: Coord, axis: int, n: nat) -> Coord
    decreases n,
{
    if n == 0 {
        dim
    } else {
        swap_dim(swap_dim_n(dim, axis, (n - 1) as nat), axis)
    }
}

/// A cell after `n` quarter turns of the cuboid about `axis`.
pub open spec fn spin_n(c: Coord, dim: Coord, axis: int, n: nat) -> Coord
    decreases n,
{
    if n == 0 {
        c
    } else {
        spin(spin_n(c, dim, axis, (n - 1) as nat), swap_dim_n(dim, axis, (n - 1) as nat), axis)
    }
}

/// The dimension after `x` turns about x, then `y` about y, then `z` about z.
pub open spec fn dim_within(dim: Coord, x: nat, y: nat, z: nat) -> Coord {
    swap_dim_n(swap_dim_n(swap_dim_n(dim, 0, x), 1, y), 2, z)
}

/// A cell after `x` turns about x, then `y` about y, then `z` about z.
pub open spec fn rot_within(c: Coord, dim: Coord, x: nat, y: nat, z: nat) -> Coord {
    let d1 = swap_dim_n(dim, 0, x);
    let d2 = swap_dim_n(d1, 1, y);
    spin_n(spin_n(spin_n(c, dim, 0, x), d1, 1, y), d2, 2, z)
}

/// The number of turns about y that follow the turns about x in pose `k`.
pub open spec fn pose_y(k: int) -> nat {
    if k % 6 == 1 {
        1
    } else if k % 6 == 2 {
        3
    } else {
        0
    }
}

/// The number of turns about z that follow the turns about x in pose `k`.
pub open spec fn pose_z(k: int) -> nat {
    if k % 6 == 3 {
        1
    } else if k % 6 == 4 {
        2
    } else if k % 6 == 5 {
        3
    } else {
        0
    }
}

/// The dimension of the cuboid in pose `k` of the 24: `k / 6` turns about x,
/// then one of six reorienting turns.
pub open spec fn pose_dim(dim: Coord, k: int) -> Coord {
    dim_within(swap_dim_n(dim, 0, (k / 6) as nat), 0, pose_y(k), pose_z(k))
}

/// A cell in pose `k` of the 24.
pub open spec fn pose(c: Coord, dim: Coord, k: int) -> Coord {
    rot_within(
        spin_n(c, dim, 0, (k / 6) as nat),
        swap_dim_n(dim, 0, (k / 6) as nat),
        0,
        pose_y(k),
        pose_z(k),
    )
}

/// The cell with index `i`.
pub open spec fn cell_of(i: int, dim: Coord) -> Coord {
    Coord {
        x: (i % (dim.x as int)) as i64,
        y: ((i / (dim.x as int)) % (dim.y as int)) as i64,
        z: (i / (dim.x * dim.y)) as i64,
    }
}

/// The cells of `p` with an index below `n`, each turned into pose `k`.
pub open spec fn image_upto(p: u64, dim: Coord, k: int, n: int) -> u64
    decreases n,
{
    if n <= 0 {
        0
    } else if bit(p, n - 1) {
        image_upto(p, dim, k, n - 1) | single(pose(cell_of(n - 1, dim), dim, k).index(dim))
    } else {
        image_upto(p, dim, k, n - 1)
    }
}

/// The placement turned with the cuboid into pose `k`.
pub open spec fn image(placement: Bitset, dim: Coord, k: int) -> Bitset {
    Bitset(image_upto(placement.0, dim, k, cell_count(dim)))
}

/// The index of a cell of the cuboid is the index of no other cell.
pub proof fn lemma_cell_of_index(c: Coord, dim: Coord)
    requires
        valid_dim(dim),
        c.inside(dim),
    ensures
        cell_of(c.index(dim), dim) == c,
        0 <= c.index(dim) < cell_count(dim),
{
    crate::coord::lemma_index_parts(c, dim);
    lemma_index_bound(c, dim);
}

/// An index below the number of cells is the index of a cell of the cuboid.
pub proof fn lemma_index_of_cell(i: int, dim: Coord)
    requires
        valid_dim(dim),
        0 <= i < cell_count(dim),
    ensures
        cell_of(i, dim).inside(dim),
        cell_of(i, dim).index(dim) == i,
{
    crate::coord::lemma_from_index_inside(i, dim);
    lemma_dim_bounds(dim);
}

/// A bit of the image under a rotation of the cuboid is set exactly when it is
/// the index of the turned cell of a cell of the placement.
pub proof fn lemma_image_bits(p: u64, dim: Coord, k: int, n: int, i: int)
    requires
        valid_dim(dim),
        0 <= k < 24,
        is_symmetry(dim, k),
        0 <= n <= cell_count(dim),
    ensures
        bit(image_upto(p, dim, k, n), i) <==> exists|m: int|
            0 <= m < n && #[trigger] bit(p, m) && pose(cell_of(m, dim), dim, k).index(dim) == i,
    decreases n,
{
    if n <= 0 {
        lemma_bit_zero(i);
    } else {
        lemma_image_bits(p, dim, k, n - 1, i);
        let c = cell_of(n - 1, dim);
        lemma_index_of_cell(n - 1, dim);
        lemma_pose(c, c, dim, k);
        let at = pose(c, dim, k).index(dim);
        lemma_index_bound(pose(c, dim, k), dim);
        lemma_dim_bounds(dim);
        let rest = image_upto(p, dim, k, n - 1);
        if bit(p, n - 1) {
            lemma_bit_or(rest, single(at), i);
            if 0 <= i < 64 {
                lemma_bit_single(at, i);
            }
        }
        if bit(image_upto(p, dim, k, n), i) {
            if bit(rest, i) {
                let m = choose|m: int|
                    0 <= m < n - 1 && #[trigger] bit(p, m) && pose(cell_of(m, dim), dim, k).index(
                        dim,
                    ) == i;
                assert(0 <= m < n && bit(p, m));
            } else {
                assert(bit(p, n - 1) && at == i);
            }
        }
        if exists|m: int|
            0 <= m < n && #[trigger] bit(p, m) && pose(cell_of(m, dim), dim, k).index(dim) == i {
            let m = choose|m: int|
                0 <= m < n && #[trigger] bit(p, m) && pose(cell_of(m, dim), dim, k).index(dim) == i;
            if m < n - 1 {
                assert(bit(rest, i));
            }
        }
    }
}

/// The mask of the turned cells of a placement is the image of the placement.
pub proof fn lemma_image_of_listing(cells: Seq<Coord>, placement: Bitset, dim: Coord, k: int)
    requires
        valid_dim(dim),
        0 <= k < 24,
        is_symmetry(dim, k),
        lists_cells(cells, placement, dim),
    ensures
        all_inside(posed(cells, dim, k), dim),
        mask_of(posed(cells, dim, k), dim) == image(placement, dim, k).0,
{
    let turned = posed(cells, dim, k);
    let n = cell_count(dim);
    assert forall|a: int| 0 <= a < turned.len() implies (#[trigger] turned[a]).inside(dim) by {
        assert(cells[a].inside(dim));
        lemma_pose(cells[a], cells[a], dim, k);
    }
    assert forall|i: int| 0 <= i < 64 implies bit(mask_of(turned, dim), i) == bit(
        image(placement, dim, k).0,
        i,
    ) by {
        lemma_mask_bits(turned, dim, i);
        lemma_image_bits(placement.0, dim, k, n, i);
        if bit(mask_of(turned, dim), i) {
            let a = choose|a: int| 0 <= a < turned.len() && (#[trigger] turned[a]).index(dim) == i;
            assert(cells[a].inside(dim) && placement.has(cells[a].index(dim)));
            lemma_cell_of_index(cells[a], dim);
            assert(bit(placement.0, cells[a].index(dim)));
        }
        if bit(image(placement, dim, k).0, i) {
            let m = choose|m: int|
                0 <= m < n && #[trigger] bit(placement.0, m) && pose(cell_of(m, dim), dim, k).index(
                    dim,
                ) == i;
            lemma_index_of_cell(m, dim);
            let c = cell_of(m, dim);
            assert(placement.has(c.index(dim)));
            assert(cells.contains(c));
            let a = choose|a: int| 0 <= a < cells.len() && cells[a] == c;
            assert(turned[a].index(dim) == i);
        }
    }
    crate::bitset::lemma_bits_equal(mask_of(turned, dim), image(placement, dim, k).0);
}

/// The cell list in pose `k`.
pub open spec fn posed(cells: Seq<Coord>, dim: Coord, k: int) -> Seq<Coord> {
    Seq::new(cells.len(), |i: int| pose(cells[i], dim, k))
}

/// Whether pose `k` turns the cuboid onto itself.
pub open spec fn is_symmetry(dim: Coord, k: int) -> bool {
    pose_dim(dim, k) == dim
}

/// A quarter turn keeps the dimension valid.
pub proof fn lemma_swap_valid(dim: Coord, axis: int)
    requires
        valid_dim(dim),
    ensures
        valid_dim(swap_dim(dim, axis)),
        cell_count(swap_dim(dim, axis)) == cell_count(dim),
{
    let (a, b, c) = (dim.x as int, dim.y as int, dim.z as int);
    assert(a * c * b == a * b * c && c * b * a == a * b * c && b * a * c == a * b * c)
        by (nonlinear_arith);
}

/// Quarter turns keep the dimension valid.
pub proof fn lemma_swap_n_valid(dim: Coord, axis: int, n: nat)
    requires
        valid_dim(dim),
    ensures
        valid_dim(swap_dim_n(dim, axis, n)),
        cell_count(swap_dim_n(dim, axis, n)) == cell_count(dim),
    decreases n,
{
    if n > 0 {
        lemma_swap_n_valid(dim, axis, (n - 1) as nat);
        lemma_swap_valid(swap_dim_n(dim, axis, (n - 1) as nat), axis);
    }
}

/// A cell of the cuboid stays in the turned cuboid, and two cells stay apart.
pub proof fn lemma_spin_n_inside(c: Coord, dim: Coord, axis: int, n: nat)
    requires
        valid_dim(dim),
        c.inside(dim),
    ensures
        spin_n(c, dim, axis, n).inside(swap_dim_n(dim, axis, n)),
    decreases n,
{
    if n > 0 {
        lemma_spin_n_inside(c, dim, axis, (n - 1) as nat);
        lemma_swap_n_valid(dim, axis, (n - 1) as nat);
        lemma_dim_bounds(swap_dim_n(dim, axis, (n - 1) as nat));
    }
}

/// Quarter turns keep two cells of the cuboid apart.
pub proof fn lemma_spin_n_injective(a: Coord, b: Coord, dim: Coord, axis: int, n: nat)
    requires
        valid_dim(dim),
        a.inside(dim),
        b.inside(dim),
        a != b,
    ensures
        spin_n(a, dim, axis, n) != spin_n(b, dim, axis, n),
    decreases n,
{
    if n > 0 {
        lemma_spin_n_injective(a, b, dim, axis, (n - 1) as nat);
        lemma_spin_n_inside(a, dim, axis, (n - 1) as nat);
        lemma_spin_n_inside(b, dim, axis, (n - 1) as nat);
        lemma_swap_n_valid(dim, axis, (n - 1) as nat);
        lemma_dim_bounds(swap_dim_n(dim, axis, (n - 1) as nat));
    }
}

/// Each of the 24 poses keeps the cells in the turned cuboid and apart.
pub proof fn lemma_pose(a: Coord, b: Coord, dim: Coord, k: int)
    requires
        valid_dim(dim),
        a.inside(dim),
        b.inside(dim),
        0 <= k < 24,
    ensures
        valid_dim(pose_dim(dim, k)),
        cell_count(pose_dim(dim, k)) == cell_count(dim),
        pose(a, dim, k).inside(pose_dim(dim, k)),
        a != b ==> pose(a, dim, k) != pose(b, dim, k),
{
    let n = (k / 6) as nat;
    let d0 = swap_dim_n(dim, 0, n);
    let d1 = swap_dim_n(d0, 0, 0);
    let d2 = swap_dim_n(d1, 1, pose_y(k));
    let (a0, b0) = (spin_n(a, dim, 0, n), spin_n(b, dim, 0, n));
    let (a1, b1) = (spin_n(a0, d0, 0, 0), spin_n(b0, d0, 0, 0));
    let (a2, b2) = (spin_n(a1, d1, 1, pose_y(k)), spin_n(b1, d1, 1, pose_y(k)));
    lemma_swap_n_valid(dim, 0, n);
    lemma_swap_n_valid(d0, 0, 0);
    lemma_swap_n_valid(d1, 1, pose_y(k));
    lemma_swap_n_valid(d2, 2, pose_z(k));
    lemma_spin_n_inside(a, dim, 0, n);
    lemma_spin_n_inside(b, dim, 0, n);
    lemma_spin_n_inside(a1, d1, 1, pose_y(k));
    lemma_spin_n_inside(b1, d1, 1, pose_y(k));
    lemma_spin_n_inside(a2, d2, 2, pose_z(k));
    if a != b {
        lemma_spin_n_injective(a, b, dim, 0, n);
        lemma_spin_n_injective(a1, b1, d1, 1, pose_y(k));
        lemma_spin_n_injective(a2, b2, d2, 2, pose_z(k));
    }
}

impl Clone for Orientation {
    fn clone(&self) -> (r: Self)
        ensures
            r@ == self@,
    {
        let mut cells: Vec<Coord> = Vec::new();
        let mut i: usize = 0;
        while i < self.0.len()
            invariant
                i <= self.0.len(),
                cells@ == self.0@.subrange(0, i as int),
            decreases self.0.len() - i,
        {
            cells.push(self.0[i]);
            i = i + 1;
            assert(cells@ =~= self.0@.subrange(0, i as int));
        }
        assert(cells@ =~= self.0@);
        Orientation(cells)
    }
}

impl Bitset {
    /// The mask of a pose that lies in the cuboid.
    pub fn from_orientation(orientation: &Orientation, dim: Coord) -> (r: Bitset)
        requires
            valid_dim(dim),
            all_inside(orientation@, dim),
        ensures
            r.0 == mask_of(orientation@, dim),
            crate::bitset::within(r.0, crate::bitset::full_mask(cell_count(dim))),
            forall|i: int|
                r.has(i) <==> exists|k: int|
                    0 <= k < orientation@.len() && (#[trigger] orientation@[k]).index(dim) == i,
    {
        let mut mask = Bitset(0);
        let mut k: usize = 0;
        while k < orientation.0.len()
            invariant
                k <= orientation.0.len(),
                valid_dim(dim),
                all_inside(orientation@, dim),
                mask.0 == mask_of(orientation@.subrange(0, k as int), dim),
            decreases orientation.0.len() - k,
        {
            let coord = orientation.0[k];
            assert(orientation@[k as int].inside(dim));
            let index = coord.to_index(dim);
            mask.0 = mask.0 | (1u64 << index);
            proof {
                let next = orientation@.subrange(0, k + 1);
                assert(next.drop_last() =~= orientation@.subrange(0, k as int));
                assert(next.last() == coord);
            }
            k = k + 1;
        }
        proof {
            assert(orientation@.subrange(0, k as int) =~= orientation@);
            lemma_mask_within(orientation@, dim);
            assert forall|i: int|
                bit(mask.0, i) <==> exists|k: int|
                    0 <= k < orientation@.len() && (#[trigger] orientation@[k]).index(dim)
                        == i by {
                lemma_mask_bits(orientation@, dim, i);
            }
        }
        mask
    }

    /// Membership of a cell of the cuboid, by its coordinate.
    pub fn has_coord_set(&self, coord: &Coord, dim: Coord) -> (r: bool)
        requires
            valid_dim(dim),
            coord.inside(dim),
        ensures
            r == self.has(coord.index(dim)),
    {
        let index = coord.to_index(dim);
        self.get(index)
    }
}

/// Whether `c` comes before the cell `(x, y, z)` when cells are listed row by
/// row: by `y` first, then `z`, then `x`.
pub open spec fn listed_before(c: Coord, x: int, y: int, z: int) -> bool {
    c.y < y || (c.y == y && (c.z < z || (c.z == z && c.x < x)))
}

/// `cells` lists the cells of the cuboid that the placement holds, each once,
/// row by row.
pub open spec fn lists_cells(cells: Seq<Coord>, placement: Bitset, dim: Coord) -> bool {
    &&& all_inside(cells, dim)
    &&& forall|k: int| 0 <= k < cells.len() ==> placement.has((#[trigger] cells[k]).index(dim))
    &&& forall|c: Coord|
        c.inside(dim) && placement.has(#[trigger] c.index(dim)) ==> cells.contains(c)
    &&& forall|i: int, j: int|
        0 <= i < j < cells.len() ==> listed_before(
            #[trigger] cells[i],
            (#[trigger] cells[j]).x as int,
            cells[j].y as int,
            cells[j].z as int,
        )
}

/// The cells of a placement, listed row by row.
pub open spec fn cells_of(placement: Bitset, dim: Coord) -> Seq<Coord> {
    choose|cells: Seq<Coord>| lists_cells(cells, placement, dim)
}

/// Two lists of the cells of a placement agree on their first `n` cells.
proof fn lemma_listing_prefix(s: Seq<Coord>, t: Seq<Coord>, p: Bitset, dim: Coord, n: int)
    requires
        lists_cells(s, p, dim),
        lists_cells(t, p, dim),
        0 <= n <= s.len(),
        n <= t.len(),
    ensures
        forall|i: int| 0 <= i < n ==> s[i] == t[i],
    decreases n,
{
    if n > 0 {
        lemma_listing_prefix(s, t, p, dim, n - 1);
        let i = n - 1;
        assert(s[i].inside(dim) && p.has(s[i].index(dim)));
        assert(t[i].inside(dim) && p.has(t[i].index(dim)));
        assert(t.contains(s[i]));
        assert(s.contains(t[i]));
        let a = choose|a: int| 0 <= a < t.len() && t[a] == s[i];
        let b = choose|b: int| 0 <= b < s.len() && s[b] == t[i];
        if a < i {
            assert(s[a] == t[a]);
            assert(listed_before(s[a], s[i].x as int, s[i].y as int, s[i].z as int));
        }
        if b < i {
            assert(s[b] == t[b]);
            assert(listed_before(t[b], t[i].x as int, t[i].y as int, t[i].z as int));
        }
        if a > i {
            assert(listed_before(t[i], t[a].x as int, t[a].y as int, t[a].z as int));
            if b > i {
                assert(listed_before(s[i], s[b].x as int, s[b].y as int, s[b].z as int));
            }
        }
    }
}

/// A placement has one list of its cells.
pub proof fn lemma_listing_unique(s: Seq<Coord>, p: Bitset, dim: Coord)
    requires
        lists_cells(s, p, dim),
    ensures
        s == cells_of(p, dim),
{
    let t = cells_of(p, dim);
    assert(lists_cells(t, p, dim));
    let n = if s.len() <= t.len() { s.len() as int } else { t.len() as int };
    lemma_listing_prefix(s, t, p, dim, n);
    if s.len() < t.len() {
        let x = t[n];
        assert(x.inside(dim) && p.has(x.index(dim)));
        assert(s.contains(x));
        let w = choose|w: int| 0 <= w < s.len() && s[w] == x;
        assert(t[w] == s[w]);
        assert(listed_before(t[w], t[n].x as int, t[n].y as int, t[n].z as int));
    }
    if t.len() < s.len() {
        let x = s[n];
        assert(x.inside(dim) && p.has(x.index(dim)));
        assert(t.contains(x));
        let w = choose|w: int| 0 <= w < t.len() && t[w] == x;
        assert(t[w] == s[w]);
        assert(listed_before(s[w], s[n].x as int, s[n].y as int, s[n].z as int));
    }
    assert(s =~= t);
}

/// The least coordinate along each axis is reached by a cell and is below no
/// other.
pub open spec fn min_corner(cells: Seq<Coord>, m: Coord) -> bool {
    &&& forall|i: int| 0 <= i < cells.len() ==> m.x <= (#[trigger] cells[i]).x
    &&& forall|i: int| 0 <= i < cells.len() ==> m.y <= (#[trigger] cells[i]).y
    &&& forall|i: int| 0 <= i < cells.len() ==> m.z <= (#[trigger] cells[i]).z
    &&& exists|i: int| 0 <= i < cells.len() && (#[trigger] cells[i]).x == m.x
    &&& exists|i: int| 0 <= i < cells.len() && (#[trigger] cells[i]).y == m.y
    &&& exists|i: int| 0 <= i < cells.len() && (#[trigger] cells[i]).z == m.z
}

/// The greatest coordinate along each axis.
pub open spec fn max_corner(cells: Seq<Coord>, m: Coord) -> bool {
    &&& forall|i: int| 0 <= i < cells.len() ==> m.x >= (#[trigger] cells[i]).x
    &&& forall|i: int| 0 <= i < cells.len() ==> m.y >= (#[trigger] cells[i]).y
    &&& forall|i: int| 0 <= i < cells.len() ==> m.z >= (#[trigger] cells[i]).z
    &&& exists|i: int| 0 <= i < cells.len() && (#[trigger] cells[i]).x == m.x
    &&& exists|i: int| 0 <= i < cells.len() && (#[trigger] cells[i]).y == m.y
    &&& exists|i: int| 0 <= i < cells.len() && (#[trigger] cells[i]).z == m.z
}

/// The corner of least coordinates of a non-empty list.
pub open spec fn least_corner(cells: Seq<Coord>) -> Coord {
    choose|m: Coord| min_corner(cells, m)
}

/// The corner of greatest coordinates of a non-empty list.
pub open spec fn extent(cells: Seq<Coord>) -> Coord {
    choose|m: Coord| max_corner(cells, m)
}

/// The list moved so that its least coordinate along each axis is zero.
pub open spec fn normal_form(cells: Seq<Coord>) -> Seq<Coord> {
    let m = least_corner(cells);
    Seq::new(
        cells.len(),
        |i: int|
            Coord {
                x: (cells[i].x - m.x) as i64,
                y: (cells[i].y - m.y) as i64,
                z: (cells[i].z - m.z) as i64,
            },
    )
}

/// A list has one corner of least coordinates.
pub proof fn lemma_min_corner_unique(cells: Seq<Coord>, m: Coord)
    requires
        min_corner(cells, m),
    ensures
        least_corner(cells) == m,
{
    let l = least_corner(cells);
    assert(min_corner(cells, l));
    let kx = choose|k: int| 0 <= k < cells.len() && (#[trigger] cells[k]).x == m.x;
    let ky = choose|k: int| 0 <= k < cells.len() && (#[trigger] cells[k]).y == m.y;
    let kz = choose|k: int| 0 <= k < cells.len() && (#[trigger] cells[k]).z == m.z;
    let jx = choose|k: int| 0 <= k < cells.len() && (#[trigger] cells[k]).x == l.x;
    let jy = choose|k: int| 0 <= k < cells.len() && (#[trigger] cells[k]).y == l.y;
    let jz = choose|k: int| 0 <= k < cells.len() && (#[trigger] cells[k]).z == l.z;
    assert(l.x <= cells[kx].x && m.x <= cells[jx].x);
    assert(l.y <= cells[ky].y && m.y <= cells[jy].y);
    assert(l.z <= cells[kz].z && m.z <= cells[jz].z);
}

/// A list has one corner of greatest coordinates.
pub proof fn lemma_max_corner_unique(cells: Seq<Coord>, m: Coord)
    requires
        max_corner(cells, m),
    ensures
        extent(cells) == m,
{
    let l = extent(cells);
    assert(max_corner(cells, l));
    let kx = choose|k: int| 0 <= k < cells.len() && (#[trigger] cells[k]).x == m.x;
    let ky = choose|k: int| 0 <= k < cells.len() && (#[trigger] cells[k]).y == m.y;
    let kz = choose|k: int| 0 <= k < cells.len() && (#[trigger] cells[k]).z == m.z;
    let jx = choose|k: int| 0 <= k < cells.len() && (#[trigger] cells[k]).x == l.x;
    let jy = choose|k: int| 0 <= k < cells.len() && (#[trigger] cells[k]).y == l.y;
    let jz = choose|k: int| 0 <= k < cells.len() && (#[trigger] cells[k]).z == l.z;
    assert(l.x >= cells[kx].x && m.x >= cells[jx].x);
    assert(l.y >= cells[ky].y && m.y >= cells[jy].y);
    assert(l.z >= cells[kz].z && m.z >= cells[jz].z);
}

/// Every non-empty list has a corner of least and one of greatest coordinates.
pub proof fn lemma_corners_exist(cells: Seq<Coord>)
    requires
        cells.len() > 0,
    ensures
        min_corner(cells, least_corner(cells)),
        max_corner(cells, extent(cells)),
    decreases cells.len(),
{
    if cells.len() == 1 {
        assert(min_corner(cells, cells[0]));
        assert(max_corner(cells, cells[0]));
    } else {
        let head = cells.drop_last();
        let c = cells.last();
        let n = head.len() as int;
        assert(c == cells[n]);
        lemma_corners_exist(head);
        let lo = least_corner(head);
        let hi = extent(head);
        let kx = choose|k: int| 0 <= k < head.len() && (#[trigger] head[k]).x == lo.x;
        let ky = choose|k: int| 0 <= k < head.len() && (#[trigger] head[k]).y == lo.y;
        let kz = choose|k: int| 0 <= k < head.len() && (#[trigger] head[k]).z == lo.z;
        let jx = choose|k: int| 0 <= k < head.len() && (#[trigger] head[k]).x == hi.x;
        let jy = choose|k: int| 0 <= k < head.len() && (#[trigger] head[k]).y == hi.y;
        let jz = choose|k: int| 0 <= k < head.len() && (#[trigger] head[k]).z == hi.z;
        assert(head[kx] == cells[kx] && head[ky] == cells[ky] && head[kz] == cells[kz]);
        assert(head[jx] == cells[jx] && head[jy] == cells[jy] && head[jz] == cells[jz]);
        let m = Coord {
            x: if c.x < lo.x { c.x } else { lo.x },
            y: if c.y < lo.y { c.y } else { lo.y },
            z: if c.z < lo.z { c.z } else { lo.z },
        };
        let g = Coord {
            x: if c.x > hi.x { c.x } else { hi.x },
            y: if c.y > hi.y { c.y } else { hi.y },
            z: if c.z > hi.z { c.z } else { hi.z },
        };
        assert(cells[if c.x < lo.x { n } else { kx }].x == m.x);
        assert(cells[if c.y < lo.y { n } else { ky }].y == m.y);
        assert(cells[if c.z < lo.z { n } else { kz }].z == m.z);
        assert(cells[if c.x > hi.x { n } else { jx }].x == g.x);
        assert(cells[if c.y > hi.y { n } else { jy }].y == g.y);
        assert(cells[if c.z > hi.z { n } else { jz }].z == g.z);
        assert forall|i: int| 0 <= i < cells.len() implies m.x <= (#[trigger] cells[i]).x && m.y
            <= cells[i].y && m.z <= cells[i].z && g.x >= cells[i].x && g.y >= cells[i].y && g.z
            >= cells[i].z by {
            if i < n {
                assert(head[i] == cells[i]);
            }
        }
        assert(min_corner(cells, m));
        assert(max_corner(cells, g));
    }
}

/// The normal form of cells of a cuboid is normalised, as long as the list,
/// and keeps cells apart.
pub proof fn lemma_normal_form(cells: Seq<Coord>, dim: Coord)
    requires
        cells.len() > 0,
        valid_dim(dim),
        all_inside(cells, dim),
    ensures
        normal_form(cells).len() == cells.len(),
        normalised(normal_form(cells)),
        distinct_cells(cells) ==> distinct_cells(normal_form(cells)),
        forall|i: int|
            0 <= i < cells.len() ==> 0 <= (#[trigger] normal_form(cells)[i]).x < dim.x && 0
                <= normal_form(cells)[i].y < dim.y && 0 <= normal_form(cells)[i].z < dim.z,
{
    lemma_corners_exist(cells);
    lemma_dim_bounds(dim);
    let m = least_corner(cells);
    let nf = normal_form(cells);
    let kx = choose|k: int| 0 <= k < cells.len() && (#[trigger] cells[k]).x == m.x;
    let ky = choose|k: int| 0 <= k < cells.len() && (#[trigger] cells[k]).y == m.y;
    let kz = choose|k: int| 0 <= k < cells.len() && (#[trigger] cells[k]).z == m.z;
    assert(cells[kx].inside(dim) && cells[ky].inside(dim) && cells[kz].inside(dim));
    assert forall|i: int| 0 <= i < cells.len() implies 0 <= (#[trigger] nf[i]).x < dim.x && 0
        <= nf[i].y < dim.y && 0 <= nf[i].z < dim.z && nf[i].x == cells[i].x - m.x && nf[i].y
        == cells[i].y - m.y && nf[i].z == cells[i].z - m.z by {
        assert(cells[i].inside(dim));
    }
    assert(nf[kx].x == 0 && nf[ky].y == 0 && nf[kz].z == 0);
    if distinct_cells(cells) {
        assert forall|i: int, j: int| 0 <= i < j < nf.len() implies nf[i] != nf[j] by {
            assert(cells[i] != cells[j]);
            assert(nf[i].x == cells[i].x - m.x && nf[j].x == cells[j].x - m.x);
        }
    }
}

/// A pose is normalised when its least coordinate along each axis is zero.
pub open spec fn normalised(cells: Seq<Coord>) -> bool {
    min_corner(cells, Coord { x: 0, y: 0, z: 0 })
}

/// The coordinates are small enough for any two to be subtracted.
pub open spec fn spans_fit(cells: Seq<Coord>) -> bool {
    forall|i: int, j: int|
        0 <= i < cells.len() && 0 <= j < cells.len() ==> {
            &&& i64::MIN <= (#[trigger] cells[i]).x - (#[trigger] cells[j]).x <= i64::MAX
            &&& i64::MIN <= cells[i].y - cells[j].y <= i64::MAX
            &&& i64::MIN <= cells[i].z - cells[j].z <= i64::MAX
        }
}

impl Orientation {
    /// The cells of a placement, listed row by row: by `y`, then `z`, then `x`.
    pub fn from_placement(placement: Placement, dim: Coord) -> (r: Orientation)
        requires
            valid_dim(dim),
        ensures
            lists_cells(r@, placement, dim),
            r@ == cells_of(placement, dim),
            distinct_cells(r@),
    {
        let mut coords: Vec<Coord> = Vec::new();
        let mut y: i64 = 0;
        while y < dim.y
            invariant
                valid_dim(dim),
                0 <= y <= dim.y,
                all_inside(coords@, dim),
                forall|k: int|
                    0 <= k < coords@.len() ==> placement.has((#[trigger] coords@[k]).index(dim))
                        && listed_before(coords@[k], 0, y as int, 0),
                forall|c: Coord|
                    c.inside(dim) && placement.has(#[trigger] c.index(dim)) && listed_before(
                        c,
                        0,
                        y as int,
                        0,
                    ) ==> coords@.contains(c),
                forall|i: int, j: int|
                    0 <= i < j < coords@.len() ==> listed_before(
                        #[trigger] coords@[i],
                        (#[trigger] coords@[j]).x as int,
                        coords@[j].y as int,
                        coords@[j].z as int,
                    ),
            decreases dim.y - y,
        {
            let mut z: i64 = 0;
            while z < dim.z
                invariant
                    valid_dim(dim),
                    0 <= y < dim.y,
                    0 <= z <= dim.z,
                    all_inside(coords@, dim),
                    forall|k: int|
                        0 <= k < coords@.len() ==> placement.has(
                            (#[trigger] coords@[k]).index(dim),
                        ) && listed_before(coords@[k], 0, y as int, z as int),
                    forall|c: Coord|
                        c.inside(dim) && placement.has(#[trigger] c.index(dim)) && listed_before(
                            c,
                            0,
                            y as int,
                            z as int,
                        ) ==> coords@.contains(c),
                    forall|i: int, j: int|
                        0 <= i < j < coords@.len() ==> listed_before(
                            #[trigger] coords@[i],
                            (#[trigger] coords@[j]).x as int,
                            coords@[j].y as int,
                            coords@[j].z as int,
                        ),
                decreases dim.z - z,
            {
                let mut x: i64 = 0;
                while x < dim.x
                    invariant
                        valid_dim(dim),
                        0 <= y < dim.y,
                        0 <= z < dim.z,
                        0 <= x <= dim.x,
                        all_inside(coords@, dim),
                        forall|k: int|
                            0 <= k < coords@.len() ==> placement.has(
                                (#[trigger] coords@[k]).index(dim),
                            ) && listed_before(coords@[k], x as int, y as int, z as int),
                        forall|c: Coord|
                            c.inside(dim) && placement.has(#[trigger] c.index(dim))
                                && listed_before(c, x as int, y as int, z as int)
                                ==> coords@.contains(c),
                        forall|i: int, j: int|
                            0 <= i < j < coords@.len() ==> listed_before(
                                #[trigger] coords@[i],
                                (#[trigger] coords@[j]).x as int,
                                coords@[j].y as int,
                                coords@[j].z as int,
                            ),
                    decreases dim.x - x,
                {
                    let c = Coord { x, y, z };
                    let ghost before = coords@;
                    if placement.has_coord_set(&c, dim) {
                        coords.push(c);
                        proof {
                            assert forall|d: Coord|
                                c.inside(dim) && placement.has(#[trigger] d.index(dim))
                                    && d.inside(dim) && listed_before(
                                    d,
                                    x + 1,
                                    y as int,
                                    z as int,
                                ) implies coords@.contains(d) by {
                                if listed_before(d, x as int, y as int, z as int) {
                                    let k = before.index_of(d);
                                    assert(before.contains(d));
                                    assert(coords@[k] == d);
                                } else {
                                    assert(d == c);
                                    assert(coords@[before.len() as int] == d);
                                }
                            }
                        }
                    } else {
                        proof {
                            assert forall|d: Coord|
                                d.inside(dim) && placement.has(#[trigger] d.index(dim))
                                    && listed_before(
                                    d,
                                    x + 1,
                                    y as int,
                                    z as int,
                                ) implies coords@.contains(d) by {
                                if !listed_before(d, x as int, y as int, z as int) {
                                    assert(d == c);
                                }
                            }
                        }
                    }
                    x = x + 1;
                }
                z = z + 1;
            }
            y = y + 1;
        }
        proof {
            assert forall|i: int, j: int| 0 <= i < j < coords@.len() implies coords@[i]
                != coords@[j] by {
                assert(listed_before(
                    coords@[i],
                    coords@[j].x as int,
                    coords@[j].y as int,
                    coords@[j].z as int,
                ));
            }
            assert forall|c: Coord|
                c.inside(dim) && placement.has(#[trigger] c.index(dim)) implies coords@.contains(
                c,
            ) by {
                assert(listed_before(c, 0, dim.y as int, 0));
            }
            lemma_listing_unique(coords@, placement, dim);
        }
        Orientation(coords)
    }

    /// One quarter turn of the cuboid about `axis` (0 for x, 1 for y, otherwise
    /// z): each cell is turned about the origin, moved back by one along the
    /// axis that the turn negates, and wrapped into the turned cuboid.
    fn turn(&mut self, axis: u8, dim: Coord) -> (out: Coord)
        requires
            valid_dim(dim),
            all_inside(old(self)@, dim),
        ensures
            out == swap_dim(dim, axis as int),
            valid_dim(out),
            final(self)@.len() == old(self)@.len(),
            forall|i: int|
                0 <= i < old(self)@.len() ==> (#[trigger] final(self)@[i]) == spin(
                    old(self)@[i],
                    dim,
                    axis as int,
                ),
            all_inside(final(self)@, out),
    {
        let out = if axis == 0 {
            Coord { x: dim.x, y: dim.z, z: dim.y }
        } else if axis == 1 {
            Coord { x: dim.z, y: dim.y, z: dim.x }
        } else {
            Coord { x: dim.y, y: dim.x, z: dim.z }
        };
        proof {
            lemma_swap_valid(dim, axis as int);
            lemma_dim_bounds(dim);
        }
        let n = self.0.len();
        let mut i: usize = 0;
        while i < n
            invariant
                valid_dim(dim),
                valid_dim(out),
                dim.x <= 64 && dim.y <= 64 && dim.z <= 64,
                out == swap_dim(dim, axis as int),
                n == old(self)@.len(),
                self@.len() == n,
                i <= n,
                all_inside(old(self)@, dim),
                forall|k: int| 0 <= k < i ==> (#[trigger] self@[k]) == spin(old(self)@[k], dim, axis as int),
                forall|k: int| 0 <= k < i ==> (#[trigger] self@[k]).inside(out),
                forall|k: int| i <= k < n ==> (#[trigger] self@[k]) == old(self)@[k],
            decreases n - i,
        {
            let mut c = self.0[i];
            assert(old(self)@[i as int].inside(dim));
            let ghost c0 = c;
            if axis == 0 {
                c.rotate_x();
                c.y = c.y - 1;
            } else if axis == 1 {
                c.rotate_y();
                c.z = c.z - 1;
            } else {
                c.rotate_z();
                c.x = c.x - 1;
            }
            let ghost c1 = c;
            c.bound(out);
            proof {
                let target = spin(c0, dim, axis as int);
                vstd::arithmetic::div_mod::lemma_fundamental_div_mod_converse(
                    c1.x as int,
                    out.x as int,
                    if axis == 0 || axis == 1 { 0int } else { -1int },
                    target.x as int,
                );
                vstd::arithmetic::div_mod::lemma_fundamental_div_mod_converse(
                    c1.y as int,
                    out.y as int,
                    if axis == 0 { -1int } else { 0int },
                    target.y as int,
                );
                vstd::arithmetic::div_mod::lemma_fundamental_div_mod_converse(
                    c1.z as int,
                    out.z as int,
                    if axis == 1 { -1int } else { 0int },
                    target.z as int,
                );
                assert(c == target);
            }
            self.0.set(i, c);
            i = i + 1;
        }
        out
    }

    /// Turns the pose with the cuboid: `x` quarter turns about the x axis, then
    /// `y` about y, then `z` about z. Returns the dimension of the turned
    /// cuboid.
    pub fn rotate_within(&mut self, x: usize, y: usize, z: usize, dim: Coord) -> (out: Coord)
        requires
            valid_dim(dim),
            all_inside(old(self)@, dim),
        ensures
            out == dim_within(dim, x as nat, y as nat, z as nat),
            valid_dim(out),
            final(self)@.len() == old(self)@.len(),
            forall|i: int|
                0 <= i < old(self)@.len() ==> (#[trigger] final(self)@[i]) == rot_within(
                    old(self)@[i],
                    dim,
                    x as nat,
                    y as nat,
                    z as nat,
                ),
            all_inside(final(self)@, out),
    {
        let d1 = self.turn_n(0, x, dim);
        let d2 = self.turn_n(1, y, d1);
        let d3 = self.turn_n(2, z, d2);
        d3
    }

    /// `n` quarter turns of the cuboid about `axis`.
    fn turn_n(&mut self, axis: u8, n: usize, dim: Coord) -> (out: Coord)
        requires
            valid_dim(dim),
            all_inside(old(self)@, dim),
        ensures
            out == swap_dim_n(dim, axis as int, n as nat),
            valid_dim(out),
            final(self)@.len() == old(self)@.len(),
            forall|i: int|
                0 <= i < old(self)@.len() ==> (#[trigger] final(self)@[i]) == spin_n(
                    old(self)@[i],
                    dim,
                    axis as int,
                    n as nat,
                ),
            all_inside(final(self)@, out),
    {
        let mut d = dim;
        let mut t: usize = 0;
        while t < n
            invariant
                t <= n,
                valid_dim(dim),
                valid_dim(d),
                d == swap_dim_n(dim, axis as int, t as nat),
                self@.len() == old(self)@.len(),
                forall|i: int|
                    0 <= i < old(self)@.len() ==> (#[trigger] self@[i]) == spin_n(
                        old(self)@[i],
                        dim,
                        axis as int,
                        t as nat,
                    ),
                all_inside(self@, d),
            decreases n - t,
        {
            d = self.turn(axis, d);
            t = t + 1;
        }
        d
    }

    /// The 24 poses of the cell list, each with the dimension of the cuboid
    /// turned along with it.
    pub fn poses(&self, dim: Coord) -> (r: (Vec<Orientation>, Vec<Coord>))
        requires
            valid_dim(dim),
            all_inside(self@, dim),
        ensures
            r.0@.len() == 24,
            r.1@.len() == 24,
            forall|k: int| 0 <= k < 24 ==> (#[trigger] r.0@[k])@ == posed(self@, dim, k),
            forall|k: int| 0 <= k < 24 ==> (#[trigger] r.1@[k]) == pose_dim(dim, k),
            forall|k: int| 0 <= k < 24 ==> all_inside((#[trigger] r.0@[k])@, pose_dim(dim, k)),
            forall|k: int| 0 <= k < 24 ==> valid_dim(#[trigger] pose_dim(dim, k)),
    {
        let mut orientations: Vec<Orientation> = Vec::new();
        let mut dims: Vec<Coord> = Vec::new();
        let mut current = self.clone();
        let mut d = dim;
        let mut a: usize = 0;
        while a < 4
            invariant
                a <= 4,
                valid_dim(dim),
                valid_dim(d),
                all_inside(self@, dim),
                d == swap_dim_n(dim, 0, a as nat),
                current@.len() == self@.len(),
                forall|i: int|
                    0 <= i < self@.len() ==> (#[trigger] current@[i]) == spin_n(
                        self@[i],
                        dim,
                        0,
                        a as nat,
                    ),
                all_inside(current@, d),
                orientations@.len() == 6 * a,
                dims@.len() == 6 * a,
                forall|k: int|
                    0 <= k < 6 * a ==> (#[trigger] orientations@[k])@ == posed(self@, dim, k),
                forall|k: int| 0 <= k < 6 * a ==> (#[trigger] dims@[k]) == pose_dim(dim, k),
                forall|k: int|
                    0 <= k < 6 * a ==> all_inside((#[trigger] orientations@[k])@, pose_dim(dim, k)),
                forall|k: int| 0 <= k < 6 * a ==> valid_dim(#[trigger] pose_dim(dim, k)),
            decreases 4 - a,
        {
            let mut b: usize = 0;
            while b < 6
                invariant
                    a < 4,
                    b <= 6,
                    valid_dim(dim),
                    valid_dim(d),
                    all_inside(self@, dim),
                    d == swap_dim_n(dim, 0, a as nat),
                    current@.len() == self@.len(),
                    forall|i: int|
                        0 <= i < self@.len() ==> (#[trigger] current@[i]) == spin_n(
                            self@[i],
                            dim,
                            0,
                            a as nat,
                        ),
                    all_inside(current@, d),
                    orientations@.len() == 6 * a + b,
                    dims@.len() == 6 * a + b,
                    forall|k: int|
                        0 <= k < 6 * a + b ==> (#[trigger] orientations@[k])@ == posed(
                            self@,
                            dim,
                            k,
                        ),
                    forall|k: int|
                        0 <= k < 6 * a + b ==> (#[trigger] dims@[k]) == pose_dim(dim, k),
                    forall|k: int|
                        0 <= k < 6 * a + b ==> all_inside(
                            (#[trigger] orientations@[k])@,
                            pose_dim(dim, k),
                        ),
                    forall|k: int| 0 <= k < 6 * a + b ==> valid_dim(#[trigger] pose_dim(dim, k)),
                decreases 6 - b,
            {
                let mut o = current.clone();
                let ny: usize = if b == 1 {
                    1
                } else if b == 2 {
                    3
                } else {
                    0
                };
                let nz: usize = if b == 3 {
                    1
                } else if b == 4 {
                    2
                } else if b == 5 {
                    3
                } else {
                    0
                };
                let od = o.rotate_within(0, ny, nz, d);
                proof {
                    let k = 6 * a + b;
                    assert(k / 6 == a && k % 6 == b);
                    assert(ny == pose_y(k) && nz == pose_z(k));
                    assert(od == pose_dim(dim, k));
                    assert(o@ =~= posed(self@, dim, k));
                }
                orientations.push(o);
                dims.push(od);
                b = b + 1;
            }
            d = current.turn(0, d);
            a = a + 1;
        }
        (orientations, dims)
    }

    /// The images of a placement under the 24 poses: for each pose that turns
    /// the cuboid onto itself the placement turned with it, for the others
    /// nothing.
    pub fn symmetry_images(placement: Placement, dim: Coord) -> (r: Vec<Option<Placement>>)
        requires
            valid_dim(dim),
        ensures
            r@.len() == 24,
            forall|k: int|
                0 <= k < 24 ==> #[trigger] r@[k] == if is_symmetry(dim, k) {
                    Some(image(placement, dim, k))
                } else {
                    None
                },
            forall|k: int|
                0 <= k < 24 && is_symmetry(dim, k) ==> crate::bitset::within(
                    (#[trigger] image(placement, dim, k)).0,
                    crate::bitset::full_mask(cell_count(dim)),
                ),
            is_symmetry(dim, 0),
    {
        let cells = Orientation::from_placement(placement, dim);
        let (poses, dims) = cells.poses(dim);
        let mut images: Vec<Option<Placement>> = Vec::new();
        let mut k: usize = 0;
        while k < 24
            invariant
                k <= 24,
                valid_dim(dim),
                lists_cells(cells@, placement, dim),
                poses@.len() == 24,
                dims@.len() == 24,
                forall|i: int| 0 <= i < 24 ==> (#[trigger] poses@[i])@ == posed(cells@, dim, i),
                forall|i: int| 0 <= i < 24 ==> (#[trigger] dims@[i]) == pose_dim(dim, i),
                forall|i: int|
                    0 <= i < 24 ==> all_inside((#[trigger] poses@[i])@, pose_dim(dim, i)),
                images@.len() == k,
                forall|i: int|
                    0 <= i < k ==> #[trigger] images@[i] == if is_symmetry(dim, i) {
                        Some(image(placement, dim, i))
                    } else {
                        None
                    },
                forall|i: int|
                    0 <= i < k && is_symmetry(dim, i) ==> crate::bitset::within(
                        (#[trigger] image(placement, dim, i)).0,
                        crate::bitset::full_mask(cell_count(dim)),
                    ),
            decreases 24 - k,
        {
            let d = dims[k];
            if d.x == dim.x && d.y == dim.y && d.z == dim.z {
                assert(all_inside(poses@[k as int]@, pose_dim(dim, k as int)));
                proof {
                    lemma_image_of_listing(cells@, placement, dim, k as int);
                }
                images.push(Some(Bitset::from_orientation(&poses[k], dim)));
            } else {
                images.push(None);
            }
            k = k + 1;
        }
        proof {
            assert(pose_dim(dim, 0) == dim) by {
                reveal_with_fuel(swap_dim_n, 2);
            }
        }
        images
    }

    /// The 24 poses of the cell list: four turns about the x axis, each alone
    /// and followed by one of five reorienting turns.
    pub fn get_all_rotations(&self, dim: Coord) -> (r: Vec<Orientation>)
        requires
            valid_dim(dim),
            all_inside(self@, dim),
        ensures
            r@.len() == 24,
            forall|k: int| 0 <= k < 24 ==> (#[trigger] r@[k])@ == posed(self@, dim, k),
    {
        self.poses(dim).0
    }

    /// Turns the pose about the origin: `x` quarter turns about the x axis, then
    /// `y` about y, then `z` about z.
    pub fn rotate(&mut self, x: usize, y: usize, z: usize)
        requires
            forall|i: int|
                0 <= i < old(self)@.len() ==> (#[trigger] old(self)@[i]).x > i64::MIN && old(self)@[i].y > i64::MIN && old(self)@[i].z > i64::MIN,
        ensures
            final(self)@.len() == old(self)@.len(),
            forall|i: int|
                0 <= i < old(self)@.len() ==> (#[trigger] final(self)@[i]) == turn_n(
                    turn_n(turn_n(old(self)@[i], 0, x as nat), 1, y as nat),
                    2,
                    z as nat,
                ),
    {
        self.rotate_about(0, x);
        self.rotate_about(1, y);
        self.rotate_about(2, z);
    }

    /// `n` quarter turns about `axis` (0 for x, 1 for y, otherwise z).
    fn rotate_about(&mut self, axis: u8, n: usize)
        requires
            forall|i: int|
                0 <= i < old(self)@.len() ==> (#[trigger] old(self)@[i]).x > i64::MIN && old(self)@[i].y > i64::MIN && old(self)@[i].z > i64::MIN,
        ensures
            final(self)@.len() == old(self)@.len(),
            forall|i: int|
                0 <= i < old(self)@.len() ==> (#[trigger] final(self)@[i]) == turn_n(
                    old(self)@[i],
                    axis as int,
                    n as nat,
                ),
            forall|i: int|
                0 <= i < old(self)@.len() ==> (#[trigger] final(self)@[i]).x > i64::MIN && final(self)@[i].y > i64::MIN && final(self)@[i].z > i64::MIN,
    {
        let len = self.0.len();
        let mut t: usize = 0;
        while t < n
            invariant
                t <= n,
                len == self@.len(),
                len == old(self)@.len(),
                forall|i: int|
                    0 <= i < len ==> (#[trigger] self@[i]) == turn_n(
                        old(self)@[i],
                        axis as int,
                        t as nat,
                    ),
                forall|i: int|
                    0 <= i < len ==> (#[trigger] self@[i]).x > i64::MIN && self@[i].y > i64::MIN
                        && self@[i].z > i64::MIN,
            decreases n - t,
        {
            let ghost before = self@;
            let mut i: usize = 0;
            while i < len
                invariant
                    i <= len,
                    len == self@.len(),
                    len == before.len(),
                    forall|k: int|
                        0 <= k < len ==> (#[trigger] before[k]).x > i64::MIN && before[k].y
                            > i64::MIN && before[k].z > i64::MIN,
                    forall|k: int|
                        0 <= k < i ==> (#[trigger] self@[k]) == turn(before[k], axis as int),
                    forall|k: int| i <= k < len ==> (#[trigger] self@[k]) == before[k],
                decreases len - i,
            {
                let mut c = self.0[i];
                assert(c == before[i as int]);
                if axis == 0 {
                    c.rotate_x();
                } else if axis == 1 {
                    c.rotate_y();
                } else {
                    c.rotate_z();
                }
                self.0.set(i, c);
                i = i + 1;
            }
            t = t + 1;
        }
    }

    /// Moves the pose so that its least coordinate along each axis is zero.
    pub fn normalise(&mut self)
        requires
            old(self)@.len() > 0,
            spans_fit(old(self)@),
        ensures
            final(self)@.len() == old(self)@.len(),
            normalised(final(self)@),
            final(self)@ == normal_form(old(self)@),
    {
        let n = self.0.len();
        let mut m = self.0[0];
        let mut i: usize = 1;
        assert(self@.subrange(0, 1)[0] == m);
        while i < n
            invariant
                1 <= i <= n,
                n == self@.len(),
                self@ == old(self)@,
                min_corner(self@.subrange(0, i as int), m),
            decreases n - i,
        {
            let c = self.0[i];
            let ghost before = self@.subrange(0, i as int);
            let ghost after = self@.subrange(0, i + 1);
            let ghost m0 = m;
            if c.x < m.x {
                m.x = c.x;
            }
            if c.y < m.y {
                m.y = c.y;
            }
            if c.z < m.z {
                m.z = c.z;
            }
            proof {
                assert(after[i as int] == c);
                assert forall|k: int| 0 <= k < i implies after[k] == before[k] by {}
                let kx = choose|k: int| 0 <= k < before.len() && (#[trigger] before[k]).x == m0.x;
                let ky = choose|k: int| 0 <= k < before.len() && (#[trigger] before[k]).y == m0.y;
                let kz = choose|k: int| 0 <= k < before.len() && (#[trigger] before[k]).z == m0.z;
                let wx = if c.x < m0.x { i as int } else { kx };
                let wy = if c.y < m0.y { i as int } else { ky };
                let wz = if c.z < m0.z { i as int } else { kz };
                assert(after[kx] == before[kx] && after[ky] == before[ky] && after[kz] == before[kz]);
                assert(after[wx].x == m.x);
                assert(after[wy].y == m.y);
                assert(after[wz].z == m.z);
                assert forall|k: int| 0 <= k < after.len() implies m.x <= (#[trigger] after[k]).x
                    && m.y <= after[k].y && m.z <= after[k].z by {
                    if k < i {
                        assert(after[k] == before[k]);
                    }
                }
            }
            i = i + 1;
        }
        assert(self@.subrange(0, n as int) =~= self@);
        let mut j: usize = 0;
        while j < n
            invariant
                j <= n,
                n == self@.len(),
                n == old(self)@.len(),
                spans_fit(old(self)@),
                min_corner(old(self)@, m),
                forall|k: int|
                    0 <= k < j ==> {
                        &&& (#[trigger] self@[k]).x == old(self)@[k].x - m.x
                        &&& self@[k].y == old(self)@[k].y - m.y
                        &&& self@[k].z == old(self)@[k].z - m.z
                    },
                forall|k: int| j <= k < n ==> (#[trigger] self@[k]) == old(self)@[k],
            decreases n - j,
        {
            let c = self.0[j];
            proof {
                let kx = choose|k: int| 0 <= k < n && (#[trigger] old(self)@[k]).x == m.x;
                let ky = choose|k: int| 0 <= k < n && (#[trigger] old(self)@[k]).y == m.y;
                let kz = choose|k: int| 0 <= k < n && (#[trigger] old(self)@[k]).z == m.z;
                assert(c == old(self)@[j as int]);
                assert(i64::MIN <= old(self)@[j as int].x - old(self)@[kx].x <= i64::MAX);
                assert(i64::MIN <= old(self)@[j as int].y - old(self)@[ky].y <= i64::MAX);
                assert(i64::MIN <= old(self)@[j as int].z - old(self)@[kz].z <= i64::MAX);
            }
            self.0.set(j, Coord { x: c.x - m.x, y: c.y - m.y, z: c.z - m.z });
            j = j + 1;
        }
        proof {
            let kx = choose|k: int| 0 <= k < n && (#[trigger] old(self)@[k]).x == m.x;
            let ky = choose|k: int| 0 <= k < n && (#[trigger] old(self)@[k]).y == m.y;
            let kz = choose|k: int| 0 <= k < n && (#[trigger] old(self)@[k]).z == m.z;
            assert(self@[kx].x == 0);
            assert(self@[ky].y == 0);
            assert(self@[kz].z == 0);
            assert forall|k: int| 0 <= k < n implies 0 <= (#[trigger] self@[k]).x && 0
                <= self@[k].y && 0 <= self@[k].z by {
                assert(m.x <= old(self)@[k].x);
            }
            lemma_min_corner_unique(old(self)@, m);
            assert(self@ =~= normal_form(old(self)@));
        }
    }

    /// The mask of the pose as a word: the key by which poses are told apart.
    pub fn mask_key(&self, dim: Coord) -> (r: u64)
        requires
            valid_dim(dim),
            all_inside(self@, dim),
        ensures
            r == mask_of(self@, dim),
    {
        Bitset::from_orientation(self, dim).0
    }

    /// The greatest coordinate of the pose along each axis.
    pub fn bounds(&self) -> (m: Coord)
        requires
            self@.len() > 0,
        ensures
            max_corner(self@, m),
            m == extent(self@),
    {
        let n = self.0.len();
        let mut m = self.0[0];
        let mut i: usize = 1;
        assert(self@.subrange(0, 1)[0] == m);
        while i < n
            invariant
                1 <= i <= n,
                n == self@.len(),
                max_corner(self@.subrange(0, i as int), m),
            decreases n - i,
        {
            let c = self.0[i];
            let ghost before = self@.subrange(0, i as int);
            let ghost after = self@.subrange(0, i + 1);
            let ghost m0 = m;
            if c.x > m.x {
                m.x = c.x;
            }
            if c.y > m.y {
                m.y = c.y;
            }
            if c.z > m.z {
                m.z = c.z;
            }
            proof {
                assert(after[i as int] == c);
                let kx = choose|k: int| 0 <= k < before.len() && (#[trigger] before[k]).x == m0.x;
                let ky = choose|k: int| 0 <= k < before.len() && (#[trigger] before[k]).y == m0.y;
                let kz = choose|k: int| 0 <= k < before.len() && (#[trigger] before[k]).z == m0.z;
                let wx = if c.x > m0.x { i as int } else { kx };
                let wy = if c.y > m0.y { i as int } else { ky };
                let wz = if c.z > m0.z { i as int } else { kz };
                assert(after[kx] == before[kx] && after[ky] == before[ky] && after[kz] == before[kz]);
                assert(after[wx].x == m.x);
                assert(after[wy].y == m.y);
                assert(after[wz].z == m.z);
                assert forall|k: int| 0 <= k < after.len() implies m.x >= (#[trigger] after[k]).x
                    && m.y >= after[k].y && m.z >= after[k].z by {
                    if k < i {
                        assert(after[k] == before[k]);
                    }
                }
            }
            i = i + 1;
        }
        proof {
            assert(self@.subrange(0, n as int) =~= self@);
            lemma_max_corner_unique(self@, m);
        }
        m
    }

    /// Whether every cell of the pose lies in the cuboid.
    pub fn fits(&self, dim: Coord) -> (r: bool)
        ensures
            r == all_inside(self@, dim),
    {
        let mut i: usize = 0;
        while i < self.0.len()
            invariant
                i <= self@.len(),
                forall|k: int| 0 <= k < i ==> (#[trigger] self@[k]).inside(dim),
            decreases self@.len() - i,
        {
            let c = self.0[i];
            if !(0 <= c.x && c.x < dim.x && 0 <= c.y && c.y < dim.y && 0 <= c.z && c.z < dim.z) {
                assert(!self@[i as int].inside(dim));
                return false;
            }
            i = i + 1;
        }
        true
    }

    /// The pose moved by `t`.
    pub fn shifted(&self, t: Coord) -> (r: Orientation)
        requires
            forall|i: int|
                0 <= i < self@.len() ==> {
                    &&& i64::MIN <= (#[trigger] self@[i]).x + t.x <= i64::MAX
                    &&& i64::MIN <= self@[i].y + t.y <= i64::MAX
                    &&& i64::MIN <= self@[i].z + t.z <= i64::MAX
                },
        ensures
            r@ == translated(self@, t),
    {
        let mut cells: Vec<Coord> = Vec::new();
        let mut i: usize = 0;
        while i < self.0.len()
            invariant
                i <= self@.len(),
                cells@.len() == i,
                forall|k: int| 0 <= k < i ==> (#[trigger] cells@[k]) == self@[k].plus(t),
                forall|i: int|
                    0 <= i < self@.len() ==> {
                        &&& i64::MIN <= (#[trigger] self@[i]).x + t.x <= i64::MAX
                        &&& i64::MIN <= self@[i].y + t.y <= i64::MAX
                        &&& i64::MIN <= self@[i].z + t.z <= i64::MAX
                    },
            decreases self@.len() - i,
        {
            let c = self.0[i];
            cells.push(Coord { x: c.x + t.x, y: c.y + t.y, z: c.z + t.z });
            i = i + 1;
        }
        assert(cells@ =~= translated(self@, t));
        Orientation(cells)
    }

    /// Wraps every coordinate into `0..dimension`, by the Euclidean remainder.
    pub fn normalise_to_board(&mut self, dimension: i64)
        requires
            dimension > 0,
        ensures
            final(self)@.len() == old(self)@.len(),
            forall|i: int|
                0 <= i < old(self)@.len() ==> {
                    &&& (#[trigger] final(self)@[i]).x == old(self)@[i].x as int % dimension as int
                    &&& final(self)@[i].y == old(self)@[i].y as int % dimension as int
                    &&& final(self)@[i].z == old(self)@[i].z as int % dimension as int
                },
    {
        let n = self.0.len();
        let mut i: usize = 0;
        while i < n
            invariant
                i <= n,
                dimension > 0,
                n == self@.len(),
                n == old(self)@.len(),
                forall|k: int|
                    0 <= k < i ==> {
                        &&& (#[trigger] self@[k]).x == old(self)@[k].x as int % dimension as int
                        &&& self@[k].y == old(self)@[k].y as int % dimension as int
                        &&& self@[k].z == old(self)@[k].z as int % dimension as int
                    },
                forall|k: int| i <= k < n ==> (#[trigger] self@[k]) == old(self)@[k],
            decreases n - i,
        {
            let c = self.0[i];
            let x = euclid_rem(c.x, dimension);
            let y = euclid_rem(c.y, dimension);
            let z = euclid_rem(c.z, dimension);
            self.0.set(i, Coord { x, y, z });
            i = i + 1;
        }
    }
}

} // verus!
