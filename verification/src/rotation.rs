//! The 24 rotations of the cube as signed permutations of the axes, and what
//! follows for the poses of a piece.

use vstd::prelude::*;
use crate::coord::{valid_dim, Coord, lemma_dim_bounds};
use crate::bitset::{bit, Bitset};
use crate::coord::cell_count;
use crate::orientation::{
    all_inside, cell_of, extent, image, is_symmetry, least_corner, mask_of, normal_form, pose,
    pose_dim, pose_y, pose_z, posed, spin, spin_n, swap_dim, swap_dim_n, translated,
    lemma_cell_of_index, lemma_corners_exist, lemma_image_bits, lemma_mask_bits, lemma_normal_form,
    lemma_pose,
};
use crate::piece::{
    first_by_mask, fitting_poses, piece_placements, slide, unique_poses, valid_offset,
    lemma_placement_origin, lemma_placements_of_has, lemma_room, lemma_same_mask_same_cells,
    lemma_slide_inside, lemma_unique_pose, lemma_unique_poses_ready,
};

verus! {

/// A turn of the cuboid: each axis of the turned cuboid is an axis of the
/// cuboid (0 for x, 1 for y, 2 for z), run through forwards or backwards.
pub struct Rot {
    pub sx: int,
    pub fx: bool,
    pub sy: int,
    pub fy: bool,
    pub sz: int,
    pub fz: bool,
}

/// The coordinate of `c` along `axis`.
pub open spec fn along(c: Coord, axis: int) -> int {
    if axis == 0 {
        c.x as int
    } else if axis == 1 {
        c.y as int
    } else {
        c.z as int
    }
}

/// The coordinate along `axis`, counted from the far side if `flip` is set.
pub open spec fn pick(c: Coord, dim: Coord, axis: int, flip: bool) -> int {
    if flip {
        along(dim, axis) - 1 - along(c, axis)
    } else {
        along(c, axis)
    }
}

/// The cell after the turn.
pub open spec fn apply(rot: Rot, c: Coord, dim: Coord) -> Coord {
    Coord {
        x: pick(c, dim, rot.sx, rot.fx) as i64,
        y: pick(c, dim, rot.sy, rot.fy) as i64,
        z: pick(c, dim, rot.sz, rot.fz) as i64,
    }
}

/// The dimension of the cuboid after the turn.
pub open spec fn turned_dim(rot: Rot, dim: Coord) -> Coord {
    Coord {
        x: along(dim, rot.sx) as i64,
        y: along(dim, rot.sy) as i64,
        z: along(dim, rot.sz) as i64,
    }
}

/// The source axis of target axis `a`.
pub open spec fn source(rot: Rot, a: int) -> int {
    if a == 0 {
        rot.sx
    } else if a == 1 {
        rot.sy
    } else {
        rot.sz
    }
}

/// Whether target axis `a` runs backwards.
pub open spec fn flipped(rot: Rot, a: int) -> bool {
    if a == 0 {
        rot.fx
    } else if a == 1 {
        rot.fy
    } else {
        rot.fz
    }
}

/// The turn `first` followed by the turn `then`.
pub open spec fn compose(first: Rot, then: Rot) -> Rot {
    Rot {
        sx: source(first, then.sx),
        fx: flipped(first, then.sx) != then.fx,
        sy: source(first, then.sy),
        fy: flipped(first, then.sy) != then.fy,
        sz: source(first, then.sz),
        fz: flipped(first, then.sz) != then.fz,
    }
}

/// The turn that undoes `rot`.
pub open spec fn inverse(rot: Rot) -> Rot {
    let tx = if rot.sx == 0 { 0int } else if rot.sy == 0 { 1int } else { 2int };
    let ty = if rot.sx == 1 { 0int } else if rot.sy == 1 { 1int } else { 2int };
    let tz = if rot.sx == 2 { 0int } else if rot.sy == 2 { 1int } else { 2int };
    Rot {
        sx: tx,
        fx: flipped(rot, tx),
        sy: ty,
        fy: flipped(rot, ty),
        sz: tz,
        fz: flipped(rot, tz),
    }
}

/// The axes are a permutation of the three axes.
pub open spec fn is_turn(rot: Rot) -> bool {
    &&& 0 <= rot.sx <= 2
    &&& 0 <= rot.sy <= 2
    &&& 0 <= rot.sz <= 2
    &&& rot.sx != rot.sy
    &&& rot.sx != rot.sz
    &&& rot.sy != rot.sz
}

/// Whether the permutation of the axes is even.
pub open spec fn even_axes(rot: Rot) -> bool {
    (rot.sx == 0 && rot.sy == 1) || (rot.sx == 1 && rot.sy == 2) || (rot.sx == 2 && rot.sy == 0)
}

/// A proper rotation: a turn that does not mirror. The permutation of the axes
/// is even exactly when an even number of axes runs backwards.
pub open spec fn is_proper(rot: Rot) -> bool {
    &&& is_turn(rot)
    &&& even_axes(rot) == ((rot.fx != rot.fy) == rot.fz)
}

/// The turn that leaves everything in place.
pub open spec fn identity() -> Rot {
    Rot { sx: 0, fx: false, sy: 1, fy: false, sz: 2, fz: false }
}

/// One quarter turn about `axis` (0 for x, 1 for y, otherwise z).
pub open spec fn quarter(axis: int) -> Rot {
    if axis == 0 {
        Rot { sx: 0, fx: false, sy: 2, fy: true, sz: 1, fz: false }
    } else if axis == 1 {
        Rot { sx: 2, fx: false, sy: 1, fy: false, sz: 0, fz: true }
    } else {
        Rot { sx: 1, fx: true, sy: 0, fy: false, sz: 2, fz: false }
    }
}

/// `n` quarter turns about `axis`.
pub open spec fn quarters(axis: int, n: nat) -> Rot
    decreases n,
{
    if n == 0 {
        identity()
    } else {
        compose(quarters(axis, (n - 1) as nat), quarter(axis))
    }
}

/// The turn of pose `k` of the 24.
pub open spec fn rot_of(k: int) -> Rot {
    compose(quarters(0, (k / 6) as nat), compose(quarters(1, pose_y(k)), quarters(2, pose_z(k))))
}

/// Turning by `first` and then by `then` is turning by their composition.
pub proof fn lemma_apply_compose(first: Rot, then: Rot, c: Coord, dim: Coord)
    requires
        is_turn(first),
        is_turn(then),
        valid_dim(dim),
        c.inside(dim),
    ensures
        apply(compose(first, then), c, dim) == apply(then, apply(first, c, dim), turned_dim(first, dim)),
        turned_dim(compose(first, then), dim) == turned_dim(then, turned_dim(first, dim)),
        apply(first, c, dim).inside(turned_dim(first, dim)),
        valid_dim(turned_dim(first, dim)),
        is_turn(compose(first, then)),
{
    lemma_turn_inside(first, c, dim);
    lemma_pick_compose(first, c, dim, then.sx, then.fx);
    lemma_pick_compose(first, c, dim, then.sy, then.fy);
    lemma_pick_compose(first, c, dim, then.sz, then.fz);
}

/// A turned cell of the cuboid is a cell of the turned cuboid.
pub proof fn lemma_turn_inside(rot: Rot, c: Coord, dim: Coord)
    requires
        is_turn(rot),
        valid_dim(dim),
        c.inside(dim),
    ensures
        apply(rot, c, dim).inside(turned_dim(rot, dim)),
        valid_dim(turned_dim(rot, dim)),
        forall|a: int| 0 <= a <= 2 ==> 0 <= #[trigger] along(c, a) < along(dim, a) <= 64,
{
    lemma_dim_bounds(dim);
    let (a, b, d) = (dim.x as int, dim.y as int, dim.z as int);
    assert(a * d * b == a * b * d && b * a * d == a * b * d && b * d * a == a * b * d && d * a * b
        == a * b * d && d * b * a == a * b * d) by (nonlinear_arith);
}

/// One coordinate of a cell turned twice is that coordinate of the cell turned
/// by the composition.
proof fn lemma_pick_compose(first: Rot, c: Coord, dim: Coord, a: int, f: bool)
    requires
        is_turn(first),
        0 <= a <= 2,
        dim.x <= 64 && dim.y <= 64 && dim.z <= 64,
        c.inside(dim),
    ensures
        pick(apply(first, c, dim), turned_dim(first, dim), a, f) == pick(
            c,
            dim,
            source(first, a),
            flipped(first, a) != f,
        ),
{
}

/// Composition keeps rotations proper, and so does the inverse, which undoes
/// the rotation.
pub proof fn lemma_proper(a: Rot, b: Rot)
    requires
        is_proper(a),
        is_proper(b),
    ensures
        is_proper(compose(a, b)),
        is_proper(inverse(a)),
        compose(a, compose(inverse(a), b)) == b,
{
}

/// A quarter turn of a cell of the cuboid is the turn of `quarter`.
pub proof fn lemma_spin_is_quarter(c: Coord, dim: Coord, axis: int)
    requires
        valid_dim(dim),
        c.inside(dim),
    ensures
        spin(c, dim, axis) == apply(quarter(axis), c, dim),
        swap_dim(dim, axis) == turned_dim(quarter(axis), dim),
        is_proper(quarter(axis)),
{
    lemma_dim_bounds(dim);
}

/// `n` quarter turns of a cell of the cuboid are the turn of `quarters`.
pub proof fn lemma_spin_n_is_quarters(c: Coord, dim: Coord, axis: int, n: nat)
    requires
        valid_dim(dim),
        c.inside(dim),
    ensures
        spin_n(c, dim, axis, n) == apply(quarters(axis, n), c, dim),
        swap_dim_n(dim, axis, n) == turned_dim(quarters(axis, n), dim),
        is_proper(quarters(axis, n)),
    decreases n,
{
    lemma_dim_bounds(dim);
    if n > 0 {
        let m = (n - 1) as nat;
        lemma_spin_n_is_quarters(c, dim, axis, m);
        lemma_apply_compose(quarters(axis, m), quarter(axis), c, dim);
        lemma_spin_is_quarter(spin_n(c, dim, axis, m), swap_dim_n(dim, axis, m), axis);
        lemma_proper(quarters(axis, m), quarter(axis));
    }
}

/// Pose `k` of a cell of the cuboid is the turn `rot_of(k)`, a proper rotation.
pub proof fn lemma_pose_is_rot(c: Coord, dim: Coord, k: int)
    requires
        valid_dim(dim),
        c.inside(dim),
        0 <= k < 24,
    ensures
        pose(c, dim, k) == apply(rot_of(k), c, dim),
        pose_dim(dim, k) == turned_dim(rot_of(k), dim),
        is_proper(rot_of(k)),
{
    let n = (k / 6) as nat;
    let rx = quarters(0, n);
    let ry = quarters(1, pose_y(k));
    let rz = quarters(2, pose_z(k));
    lemma_spin_n_is_quarters(c, dim, 0, n);
    lemma_spin_n_is_quarters(c, dim, 1, pose_y(k));
    lemma_spin_n_is_quarters(c, dim, 2, pose_z(k));
    lemma_proper(ry, rz);
    let c0 = spin_n(c, dim, 0, n);
    let d0 = swap_dim_n(dim, 0, n);
    lemma_apply_compose(rx, compose(ry, rz), c, dim);
    assert(spin_n(c0, d0, 0, 0) == c0 && swap_dim_n(d0, 0, 0) == d0);
    lemma_spin_n_is_quarters(c0, d0, 1, pose_y(k));
    let c1 = spin_n(c0, d0, 1, pose_y(k));
    let d1 = swap_dim_n(d0, 1, pose_y(k));
    lemma_apply_compose(ry, rz, c0, d0);
    lemma_spin_n_is_quarters(c1, d1, 2, pose_z(k));
    lemma_proper(ry, rz);
    lemma_proper(rx, compose(ry, rz));
}

/// The turns of the 24 poses.
pub proof fn lemma_rot_table()
    ensures
        forall|k: int| 0 <= k < 24 ==> is_proper(#[trigger] rot_of(k)),
        forall|rot: Rot| #[trigger] is_proper(rot) ==> 0 <= pose_of(rot) < 24 && rot_of(pose_of(rot)) == rot,
{
    reveal_with_fuel(quarters, 4);
    assert(rot_of(0) == table(0));
    assert(rot_of(1) == table(1));
    assert(rot_of(2) == table(2));
    assert(rot_of(3) == table(3));
    assert(rot_of(4) == table(4));
    assert(rot_of(5) == table(5));
    assert(rot_of(6) == table(6));
    assert(rot_of(7) == table(7));
    assert(rot_of(8) == table(8));
    assert(rot_of(9) == table(9));
    assert(rot_of(10) == table(10));
    assert(rot_of(11) == table(11));
    assert(rot_of(12) == table(12));
    assert(rot_of(13) == table(13));
    assert(rot_of(14) == table(14));
    assert(rot_of(15) == table(15));
    assert(rot_of(16) == table(16));
    assert(rot_of(17) == table(17));
    assert(rot_of(18) == table(18));
    assert(rot_of(19) == table(19));
    assert(rot_of(20) == table(20));
    assert(rot_of(21) == table(21));
    assert(rot_of(22) == table(22));
    assert(rot_of(23) == table(23));
    assert forall|rot: Rot| #[trigger] is_proper(rot) implies 0 <= pose_of(rot) < 24 && rot_of(
        pose_of(rot),
    ) == rot by {
        lemma_pose_of(rot);
    }
}

/// Every proper rotation stands in the table at the place that `pose_of` gives.
proof fn lemma_pose_of(rot: Rot)
    requires
        is_proper(rot),
    ensures
        0 <= pose_of(rot) < 24,
        table(pose_of(rot)) == rot,
{
}

/// The turn of pose `k`, written out.
pub open spec fn table(k: int) -> Rot {
    if k == 0 {
        Rot { sx: 0, fx: false, sy: 1, fy: false, sz: 2, fz: false }
    }     else if k == 1 {
        Rot { sx: 2, fx: false, sy: 1, fy: false, sz: 0, fz: true }
    }     else if k == 2 {
        Rot { sx: 2, fx: true, sy: 1, fy: false, sz: 0, fz: false }
    }     else if k == 3 {
        Rot { sx: 1, fx: true, sy: 0, fy: false, sz: 2, fz: false }
    }     else if k == 4 {
        Rot { sx: 0, fx: true, sy: 1, fy: true, sz: 2, fz: false }
    }     else if k == 5 {
        Rot { sx: 1, fx: false, sy: 0, fy: true, sz: 2, fz: false }
    }     else if k == 6 {
        Rot { sx: 0, fx: false, sy: 2, fy: true, sz: 1, fz: false }
    }     else if k == 7 {
        Rot { sx: 1, fx: false, sy: 2, fy: true, sz: 0, fz: true }
    }     else if k == 8 {
        Rot { sx: 1, fx: true, sy: 2, fy: true, sz: 0, fz: false }
    }     else if k == 9 {
        Rot { sx: 2, fx: false, sy: 0, fy: false, sz: 1, fz: false }
    }     else if k == 10 {
        Rot { sx: 0, fx: true, sy: 2, fy: false, sz: 1, fz: false }
    }     else if k == 11 {
        Rot { sx: 2, fx: true, sy: 0, fy: true, sz: 1, fz: false }
    }     else if k == 12 {
        Rot { sx: 0, fx: false, sy: 1, fy: true, sz: 2, fz: true }
    }     else if k == 13 {
        Rot { sx: 2, fx: true, sy: 1, fy: true, sz: 0, fz: true }
    }     else if k == 14 {
        Rot { sx: 2, fx: false, sy: 1, fy: true, sz: 0, fz: false }
    }     else if k == 15 {
        Rot { sx: 1, fx: false, sy: 0, fy: false, sz: 2, fz: true }
    }     else if k == 16 {
        Rot { sx: 0, fx: true, sy: 1, fy: false, sz: 2, fz: true }
    }     else if k == 17 {
        Rot { sx: 1, fx: true, sy: 0, fy: true, sz: 2, fz: true }
    }     else if k == 18 {
        Rot { sx: 0, fx: false, sy: 2, fy: false, sz: 1, fz: true }
    }     else if k == 19 {
        Rot { sx: 1, fx: true, sy: 2, fy: false, sz: 0, fz: true }
    }     else if k == 20 {
        Rot { sx: 1, fx: false, sy: 2, fy: false, sz: 0, fz: false }
    }     else if k == 21 {
        Rot { sx: 2, fx: true, sy: 0, fy: false, sz: 1, fz: true }
    }     else if k == 22 {
        Rot { sx: 0, fx: true, sy: 2, fy: true, sz: 1, fz: true }
    } else {
        Rot { sx: 2, fx: false, sy: 0, fy: true, sz: 1, fz: true }
    }
}

/// The pose whose turn is the proper rotation `rot`.
pub open spec fn pose_of(rot: Rot) -> int {
    if rot == (Rot { sx: 0, fx: false, sy: 1, fy: false, sz: 2, fz: false }) {
        0
    }     else if rot == (Rot { sx: 2, fx: false, sy: 1, fy: false, sz: 0, fz: true }) {
        1
    }     else if rot == (Rot { sx: 2, fx: true, sy: 1, fy: false, sz: 0, fz: false }) {
        2
    }     else if rot == (Rot { sx: 1, fx: true, sy: 0, fy: false, sz: 2, fz: false }) {
        3
    }     else if rot == (Rot { sx: 0, fx: true, sy: 1, fy: true, sz: 2, fz: false }) {
        4
    }     else if rot == (Rot { sx: 1, fx: false, sy: 0, fy: true, sz: 2, fz: false }) {
        5
    }     else if rot == (Rot { sx: 0, fx: false, sy: 2, fy: true, sz: 1, fz: false }) {
        6
    }     else if rot == (Rot { sx: 1, fx: false, sy: 2, fy: true, sz: 0, fz: true }) {
        7
    }     else if rot == (Rot { sx: 1, fx: true, sy: 2, fy: true, sz: 0, fz: false }) {
        8
    }     else if rot == (Rot { sx: 2, fx: false, sy: 0, fy: false, sz: 1, fz: false }) {
        9
    }     else if rot == (Rot { sx: 0, fx: true, sy: 2, fy: false, sz: 1, fz: false }) {
        10
    }     else if rot == (Rot { sx: 2, fx: true, sy: 0, fy: true, sz: 1, fz: false }) {
        11
    }     else if rot == (Rot { sx: 0, fx: false, sy: 1, fy: true, sz: 2, fz: true }) {
        12
    }     else if rot == (Rot { sx: 2, fx: true, sy: 1, fy: true, sz: 0, fz: true }) {
        13
    }     else if rot == (Rot { sx: 2, fx: false, sy: 1, fy: true, sz: 0, fz: false }) {
        14
    }     else if rot == (Rot { sx: 1, fx: false, sy: 0, fy: false, sz: 2, fz: true }) {
        15
    }     else if rot == (Rot { sx: 0, fx: true, sy: 1, fy: false, sz: 2, fz: true }) {
        16
    }     else if rot == (Rot { sx: 1, fx: true, sy: 0, fy: true, sz: 2, fz: true }) {
        17
    }     else if rot == (Rot { sx: 0, fx: false, sy: 2, fy: false, sz: 1, fz: true }) {
        18
    }     else if rot == (Rot { sx: 1, fx: true, sy: 2, fy: false, sz: 0, fz: true }) {
        19
    }     else if rot == (Rot { sx: 1, fx: false, sy: 2, fy: false, sz: 0, fz: false }) {
        20
    }     else if rot == (Rot { sx: 2, fx: true, sy: 0, fy: false, sz: 1, fz: true }) {
        21
    }     else if rot == (Rot { sx: 0, fx: true, sy: 2, fy: true, sz: 1, fz: true }) {
        22
    } else {
        23
    }
}

/// Whether one of the poses has the mask `m`.
pub open spec fn has_mask(poses: Seq<Seq<Coord>>, dim: Coord, m: u64) -> bool {
    exists|i: int| 0 <= i < poses.len() && mask_of(#[trigger] poses[i], dim) == m
}

/// A pose whose normal form lies in the cuboid is listed among the fitting
/// poses.
pub proof fn lemma_fitting_has(cells: Seq<Coord>, dim: Coord, n: int, k: int) -> (w: int)
    requires
        0 <= k < n <= 24,
        all_inside(normal_form(posed(cells, dim, k)), dim),
    ensures
        0 <= w < fitting_poses(cells, dim, n).len(),
        fitting_poses(cells, dim, n)[w] == normal_form(posed(cells, dim, k)),
    decreases n,
{
    let rest = fitting_poses(cells, dim, n - 1);
    if k == n - 1 {
        rest.len() as int
    } else {
        lemma_fitting_has(cells, dim, n - 1, k)
    }
}

/// The mask of each of the first `n` poses is the mask of a pose that is kept.
pub proof fn lemma_first_by_mask_keeps(poses: Seq<Seq<Coord>>, dim: Coord, n: int, w: int)
    requires
        0 <= w < n <= poses.len(),
    ensures
        has_mask(first_by_mask(poses, dim, n), dim, mask_of(poses[w], dim)),
    decreases n,
{
    let rest = first_by_mask(poses, dim, n - 1);
    let now = first_by_mask(poses, dim, n);
    let m = mask_of(poses[w], dim);
    if w == n - 1 {
        if exists|j: int|
            0 <= j < n - 1 && mask_of(#[trigger] poses[j], dim) == mask_of(poses[n - 1], dim) {
            let j = choose|j: int|
                0 <= j < n - 1 && mask_of(#[trigger] poses[j], dim) == mask_of(poses[n - 1], dim);
            lemma_first_by_mask_keeps(poses, dim, n - 1, j);
        } else {
            assert(mask_of(now[rest.len() as int], dim) == m);
        }
    } else {
        lemma_first_by_mask_keeps(poses, dim, n - 1, w);
        let i = choose|i: int| 0 <= i < rest.len() && mask_of(#[trigger] rest[i], dim) == m;
        assert(mask_of(now[i], dim) == m);
    }
}

/// A rotation of the cuboid followed by one of the 24 poses is one of the 24
/// poses.
pub proof fn lemma_composed_pose(base: Seq<Coord>, dim: Coord, r: int, g: int) -> (k: int)
    requires
        valid_dim(dim),
        all_inside(base, dim),
        0 <= r < 24,
        0 <= g < 24,
        is_symmetry(dim, r),
    ensures
        0 <= k < 24,
        posed(posed(base, dim, r), dim, g) == posed(base, dim, k),
{
    lemma_rot_table();
    let both = compose(rot_of(r), rot_of(g));
    lemma_proper(rot_of(r), rot_of(g));
    let k = pose_of(both);
    assert forall|i: int| 0 <= i < base.len() implies pose(pose(base[i], dim, r), dim, g) == pose(
        base[i],
        dim,
        k,
    ) by {
        let c = base[i];
        assert(c.inside(dim));
        lemma_pose_is_rot(c, dim, r);
        lemma_pose(c, c, dim, r);
        lemma_pose_is_rot(pose(c, dim, r), dim, g);
        lemma_pose_is_rot(c, dim, k);
        lemma_apply_compose(rot_of(r), rot_of(g), c, dim);
    }
    assert(posed(posed(base, dim, r), dim, g) =~= posed(base, dim, k));
    k
}

/// Each of the 24 poses is a given rotation of the cuboid followed by one of
/// the 24 poses.
pub proof fn lemma_decomposed_pose(base: Seq<Coord>, dim: Coord, r: int, k: int) -> (g: int)
    requires
        valid_dim(dim),
        all_inside(base, dim),
        0 <= r < 24,
        0 <= k < 24,
        is_symmetry(dim, r),
    ensures
        0 <= g < 24,
        posed(posed(base, dim, r), dim, g) == posed(base, dim, k),
{
    lemma_rot_table();
    let back = compose(inverse(rot_of(r)), rot_of(k));
    lemma_proper(rot_of(r), rot_of(k));
    lemma_proper(inverse(rot_of(r)), rot_of(k));
    let g = pose_of(back);
    assert forall|i: int| 0 <= i < base.len() implies pose(pose(base[i], dim, r), dim, g) == pose(
        base[i],
        dim,
        k,
    ) by {
        let c = base[i];
        assert(c.inside(dim));
        lemma_pose_is_rot(c, dim, r);
        lemma_pose(c, c, dim, r);
        lemma_pose_is_rot(pose(c, dim, r), dim, g);
        lemma_pose_is_rot(c, dim, k);
        lemma_apply_compose(rot_of(r), rot_of(g), c, dim);
    }
    assert(posed(posed(base, dim, r), dim, g) =~= posed(base, dim, k));
    g
}

/// A piece and the same piece turned by a rotation of the cuboid have the same
/// distinct poses: a mask is the mask of a distinct pose of the one exactly
/// when it is the mask of a distinct pose of the other. No mask occurs twice
/// among the distinct poses of a piece.
pub proof fn lemma_turned_piece_same_poses(base: Seq<Coord>, dim: Coord, r: int, m: u64)
    requires
        valid_dim(dim),
        base.len() > 0,
        all_inside(base, dim),
        0 <= r < 24,
        is_symmetry(dim, r),
    ensures
        all_inside(posed(base, dim, r), dim),
        has_mask(unique_poses(base, dim), dim, m) <==> has_mask(
            unique_poses(posed(base, dim, r), dim),
            dim,
            m,
        ),
{
    let turned = posed(base, dim, r);
    assert forall|i: int| 0 <= i < turned.len() implies (#[trigger] turned[i]).inside(dim) by {
        assert(base[i].inside(dim));
        lemma_pose(base[i], base[i], dim, r);
    }
    if has_mask(unique_poses(base, dim), dim, m) {
        let poses = unique_poses(base, dim);
        let i = choose|i: int| 0 <= i < poses.len() && mask_of(#[trigger] poses[i], dim) == m;
        let k = lemma_unique_pose(base, dim, i);
        let g = lemma_decomposed_pose(base, dim, r, k);
        let w = lemma_fitting_has(turned, dim, 24, g);
        let fitting = fitting_poses(turned, dim, 24);
        lemma_first_by_mask_keeps(fitting, dim, fitting.len() as int, w);
    }
    if has_mask(unique_poses(turned, dim), dim, m) {
        let poses = unique_poses(turned, dim);
        let i = choose|i: int| 0 <= i < poses.len() && mask_of(#[trigger] poses[i], dim) == m;
        let g = lemma_unique_pose(turned, dim, i);
        let k = lemma_composed_pose(base, dim, r, g);
        let w = lemma_fitting_has(base, dim, 24, k);
        let fitting = fitting_poses(base, dim, 24);
        lemma_first_by_mask_keeps(fitting, dim, fitting.len() as int, w);
    }
}

/// How far a turned cell moves along one axis of the turned cuboid when the
/// cell is moved by `t - m` before the turn and the cuboid of dimension `d` is
/// exchanged for that of dimension `dim`.
pub open spec fn shift_along(axis: int, flip: bool, d: Coord, m: Coord, t: Coord, dim: Coord) -> int {
    if flip {
        along(dim, axis) - along(d, axis) + along(m, axis) - along(t, axis)
    } else {
        along(t, axis) - along(m, axis)
    }
}

/// The move of the turned cells that `shift_along` gives along each axis.
pub open spec fn shift(rot: Rot, d: Coord, m: Coord, t: Coord, dim: Coord) -> Coord {
    Coord {
        x: shift_along(rot.sx, rot.fx, d, m, t, dim) as i64,
        y: shift_along(rot.sy, rot.fy, d, m, t, dim) as i64,
        z: shift_along(rot.sz, rot.fz, d, m, t, dim) as i64,
    }
}

/// All three coordinates lie between `lo` and `hi`.
pub open spec fn between(c: Coord, lo: int, hi: int) -> bool {
    lo <= c.x <= hi && lo <= c.y <= hi && lo <= c.z <= hi
}

/// Turning a moved cell in one cuboid is turning the cell in another cuboid
/// and moving it, by a move that is the same for every cell.
pub proof fn lemma_turn_moved(rot: Rot, c: Coord, d: Coord, m: Coord, t: Coord, dim: Coord)
    requires
        is_turn(rot),
        between(c, 0, 64),
        between(d, 0, 64),
        between(m, 0, 64),
        between(t, 0, 64),
        between(dim, 0, 64),
    ensures
        apply(
            rot,
            Coord {
                x: (c.x - m.x + t.x) as i64,
                y: (c.y - m.y + t.y) as i64,
                z: (c.z - m.z + t.z) as i64,
            },
            dim,
        ) == apply(rot, c, d).plus(shift(rot, d, m, t, dim)),
        between(shift(rot, d, m, t, dim), -192, 192),
{
}

/// Each cell of either list is a cell of the other.
pub open spec fn same_cells(a: Seq<Coord>, b: Seq<Coord>) -> bool {
    &&& forall|i: int| 0 <= i < a.len() ==> b.contains(#[trigger] a[i])
    &&& forall|i: int| 0 <= i < b.len() ==> a.contains(#[trigger] b[i])
}

/// The pose whose turn is a given proper rotation.
pub proof fn lemma_pose_index(rot: Rot) -> (k: int)
    requires
        is_proper(rot),
    ensures
        0 <= k < 24,
        rot_of(k) == rot,
{
    lemma_rot_table();
    pose_of(rot)
}

/// The cells of a pose lie in the turned cuboid, around its corner of least
/// coordinates, and the normal form takes that corner off each cell.
proof fn lemma_posed_corner(base: Seq<Coord>, dim: Coord, k: int)
    requires
        valid_dim(dim),
        base.len() > 0,
        all_inside(base, dim),
        0 <= k < 24,
    ensures
        valid_dim(pose_dim(dim, k)),
        between(pose_dim(dim, k), 1, 64),
        between(least_corner(posed(base, dim, k)), 0, 63),
        normal_form(posed(base, dim, k)).len() == base.len(),
        crate::orientation::normalised(normal_form(posed(base, dim, k))),
        forall|a: int|
            0 <= a < base.len() ==> {
                let c = #[trigger] posed(base, dim, k)[a];
                let m = least_corner(posed(base, dim, k));
                let f = normal_form(posed(base, dim, k))[a];
                &&& c.inside(pose_dim(dim, k))
                &&& f.x == c.x - m.x && f.y == c.y - m.y && f.z == c.z - m.z
                &&& between(f, 0, 63)
            },
{
    let turned = posed(base, dim, k);
    let d = pose_dim(dim, k);
    let m = least_corner(turned);
    lemma_pose(base[0], base[0], dim, k);
    lemma_dim_bounds(d);
    assert forall|a: int| 0 <= a < base.len() implies (#[trigger] turned[a]).inside(d) by {
        assert(base[a].inside(dim));
        lemma_pose(base[a], base[a], dim, k);
    }
    lemma_corners_exist(turned);
    lemma_normal_form(turned, d);
    let kx = choose|a: int| 0 <= a < turned.len() && (#[trigger] turned[a]).x == m.x;
    let ky = choose|a: int| 0 <= a < turned.len() && (#[trigger] turned[a]).y == m.y;
    let kz = choose|a: int| 0 <= a < turned.len() && (#[trigger] turned[a]).z == m.z;
    assert(turned[kx].inside(d) && turned[ky].inside(d) && turned[kz].inside(d));
    assert forall|a: int| 0 <= a < base.len() implies {
        let c = #[trigger] posed(base, dim, k)[a];
        let f = normal_form(posed(base, dim, k))[a];
        &&& c.inside(d)
        &&& f.x == c.x - m.x && f.y == c.y - m.y && f.z == c.z - m.z
        &&& between(f, 0, 63)
    } by {
        assert(turned[a].inside(d));
        assert(m.x <= turned[a].x && m.y <= turned[a].y && m.z <= turned[a].z);
    }
}

/// One cell of a pose, moved and then turned by a rotation of the cuboid, is
/// the cell in the composed pose, moved.
proof fn lemma_turned_cell(c0: Coord, dim: Coord, k: int, r: int, k2: int, m: Coord, t: Coord)
    requires
        valid_dim(dim),
        c0.inside(dim),
        0 <= k < 24,
        0 <= r < 24,
        0 <= k2 < 24,
        is_symmetry(dim, r),
        rot_of(k2) == compose(rot_of(k), rot_of(r)),
        between(m, 0, 64),
        between(t, 0, 64),
        (Coord {
            x: (pose(c0, dim, k).x - m.x + t.x) as i64,
            y: (pose(c0, dim, k).y - m.y + t.y) as i64,
            z: (pose(c0, dim, k).z - m.z + t.z) as i64,
        }).inside(dim),
    ensures
        pose(
            Coord {
                x: (pose(c0, dim, k).x - m.x + t.x) as i64,
                y: (pose(c0, dim, k).y - m.y + t.y) as i64,
                z: (pose(c0, dim, k).z - m.z + t.z) as i64,
            },
            dim,
            r,
        ) == pose(c0, dim, k2).plus(shift(rot_of(r), pose_dim(dim, k), m, t, dim)),
        between(shift(rot_of(r), pose_dim(dim, k), m, t, dim), -192, 192),
{
    let c = pose(c0, dim, k);
    let d = pose_dim(dim, k);
    let moved = Coord {
        x: (c.x - m.x + t.x) as i64,
        y: (c.y - m.y + t.y) as i64,
        z: (c.z - m.z + t.z) as i64,
    };
    lemma_dim_bounds(dim);
    lemma_pose(c0, c0, dim, k);
    lemma_dim_bounds(d);
    lemma_pose_is_rot(c0, dim, k);
    lemma_pose_is_rot(c0, dim, k2);
    lemma_pose_is_rot(moved, dim, r);
    lemma_apply_compose(rot_of(k), rot_of(r), c0, dim);
    lemma_turn_moved(rot_of(r), c, d, m, t, dim);
}

/// The offset between the turned cells of pose `k` placed at `t` and the
/// normal form of pose `k2`, where `k2` is pose `k` followed by rotation `r`.
pub open spec fn turned_offset(base: Seq<Coord>, dim: Coord, k: int, k2: int, t: Coord, r: int) -> Coord {
    let m2 = least_corner(posed(base, dim, k2));
    let sh = shift(rot_of(r), pose_dim(dim, k), least_corner(posed(base, dim, k)), t, dim);
    Coord { x: (m2.x + sh.x) as i64, y: (m2.y + sh.y) as i64, z: (m2.z + sh.z) as i64 }
}

/// Cell `a` of a placed pose, turned by a rotation of the cuboid, is cell `a`
/// of the normal form of the composed pose, moved by `turned_offset`.
proof fn lemma_turned_cells_at(
    base: Seq<Coord>,
    dim: Coord,
    nf: Seq<Coord>,
    t: Coord,
    r: int,
    k: int,
    k2: int,
    a: int,
)
    requires
        valid_dim(dim),
        base.len() > 0,
        all_inside(base, dim),
        0 <= k < 24,
        0 <= k2 < 24,
        0 <= r < 24,
        is_symmetry(dim, r),
        nf == normal_form(posed(base, dim, k)),
        rot_of(k2) == compose(rot_of(k), rot_of(r)),
        between(t, 0, 64),
        0 <= a < base.len(),
        nf[a].plus(t).inside(dim),
    ensures
        ({
            let img = pose(nf[a].plus(t), dim, r);
            let f = normal_form(posed(base, dim, k2))[a];
            let off = turned_offset(base, dim, k, k2, t, r);
            &&& img.inside(dim)
            &&& img.x == f.x + off.x
            &&& img.y == f.y + off.y
            &&& img.z == f.z + off.z
            &&& between(f, 0, 63)
            &&& between(off, -256, 256)
        }),
{
    lemma_posed_corner(base, dim, k);
    lemma_posed_corner(base, dim, k2);
    let m = least_corner(posed(base, dim, k));
    let c = posed(base, dim, k)[a];
    let f2 = posed(base, dim, k2)[a];
    assert(base[a].inside(dim));
    assert(c == pose(base[a], dim, k));
    assert(f2 == pose(base[a], dim, k2));
    lemma_turned_cell(base[a], dim, k, r, k2, m, t);
    lemma_pose(nf[a].plus(t), nf[a].plus(t), dim, r);
}

/// A placed pose, turned by a rotation of the cuboid, is the normal form of one
/// of the 24 poses of the piece, moved by an offset that is not negative.
proof fn lemma_turned_cells(base: Seq<Coord>, dim: Coord, i: int, t: Coord, r: int) -> (res: (
    int,
    Coord,
))
    requires
        valid_dim(dim),
        base.len() > 0,
        all_inside(base, dim),
        0 <= i < unique_poses(base, dim).len(),
        valid_offset(unique_poses(base, dim)[i], dim, t),
        0 <= r < 24,
        is_symmetry(dim, r),
    ensures
        0 <= res.0 < 24,
        between(res.1, 0, 64),
        normal_form(posed(base, dim, res.0)).len() == base.len(),
        crate::orientation::normalised(normal_form(posed(base, dim, res.0))),
        all_inside(normal_form(posed(base, dim, res.0)), dim),
        all_inside(translated(normal_form(posed(base, dim, res.0)), res.1), dim),
        posed(translated(unique_poses(base, dim)[i], t), dim, r) == translated(
            normal_form(posed(base, dim, res.0)),
            res.1,
        ),
{
    let k = lemma_unique_pose(base, dim, i);
    let nf = unique_poses(base, dim)[i];
    let cells = translated(nf, t);
    lemma_slide_inside(nf, dim, t);
    lemma_room(nf, dim);
    lemma_pose_is_rot(base[0], dim, k);
    lemma_pose_is_rot(base[0], dim, r);
    lemma_proper(rot_of(k), rot_of(r));
    let k2 = lemma_pose_index(compose(rot_of(k), rot_of(r)));
    lemma_turned_spread(base, dim, nf, t, r, k, k2);
    (k2, turned_offset(base, dim, k, k2, t, r))
}

/// The cells of a placed pose, turned, are the normal form of the composed
/// pose at an offset that is not negative.
proof fn lemma_turned_spread(
    base: Seq<Coord>,
    dim: Coord,
    nf: Seq<Coord>,
    t: Coord,
    r: int,
    k: int,
    k2: int,
)
    requires
        valid_dim(dim),
        base.len() > 0,
        all_inside(base, dim),
        0 <= k < 24,
        0 <= k2 < 24,
        0 <= r < 24,
        is_symmetry(dim, r),
        nf == normal_form(posed(base, dim, k)),
        nf.len() == base.len(),
        rot_of(k2) == compose(rot_of(k), rot_of(r)),
        between(t, 0, 64),
        all_inside(translated(nf, t), dim),
    ensures
        between(turned_offset(base, dim, k, k2, t, r), 0, 64),
        normal_form(posed(base, dim, k2)).len() == base.len(),
        crate::orientation::normalised(normal_form(posed(base, dim, k2))),
        all_inside(normal_form(posed(base, dim, k2)), dim),
        all_inside(
            translated(normal_form(posed(base, dim, k2)), turned_offset(base, dim, k, k2, t, r)),
            dim,
        ),
        posed(translated(nf, t), dim, r) == translated(
            normal_form(posed(base, dim, k2)),
            turned_offset(base, dim, k, k2, t, r),
        ),
{
    let cells = translated(nf, t);
    let nf2 = normal_form(posed(base, dim, k2));
    let off = turned_offset(base, dim, k, k2, t, r);
    let img = posed(cells, dim, r);
    lemma_posed_corner(base, dim, k2);
    lemma_dim_bounds(dim);
    assert forall|a: int| 0 <= a < base.len() implies (#[trigger] img[a]).inside(dim) && img[a].x
        == nf2[a].x + off.x && img[a].y == nf2[a].y + off.y && img[a].z == nf2[a].z + off.z
        && between(nf2[a], 0, 63) by {
        assert(cells[a] == nf[a].plus(t));
        assert(cells[a].inside(dim));
        lemma_turned_cells_at(base, dim, nf, t, r, k, k2, a);
    }
    assert(cells[0] == nf[0].plus(t) && cells[0].inside(dim));
    lemma_turned_cells_at(base, dim, nf, t, r, k, k2, 0);
    let zx = choose|a: int| 0 <= a < nf2.len() && (#[trigger] nf2[a]).x == 0;
    let zy = choose|a: int| 0 <= a < nf2.len() && (#[trigger] nf2[a]).y == 0;
    let zz = choose|a: int| 0 <= a < nf2.len() && (#[trigger] nf2[a]).z == 0;
    assert(img[zx].inside(dim) && img[zy].inside(dim) && img[zz].inside(dim));
    assert(between(off, 0, 64));
    assert forall|a: int| 0 <= a < nf2.len() implies (#[trigger] nf2[a]).inside(dim) by {
        assert(img[a].inside(dim));
    }
    assert forall|a: int| 0 <= a < nf2.len() implies (#[trigger] translated(nf2, off)[a])
        == img[a] by {
        assert(img[a].inside(dim));
        assert(between(nf2[a], 0, 63));
    }
    assert(img =~= translated(nf2, off));
}

/// Two normalised poses with the same mask have room for the same offsets, and
/// moved by the same offset they have the same cells.
proof fn lemma_same_room(p1: Seq<Coord>, p2: Seq<Coord>, dim: Coord, off: Coord)
    requires
        valid_dim(dim),
        p1.len() > 0,
        p2.len() > 0,
        all_inside(p1, dim),
        all_inside(p2, dim),
        crate::orientation::normalised(p1),
        mask_of(p1, dim) == mask_of(p2, dim),
        between(off, 0, 64),
        all_inside(translated(p2, off), dim),
    ensures
        valid_offset(p1, dim, off),
        all_inside(translated(p1, off), dim),
        same_cells(translated(p2, off), translated(p1, off)),
{
    lemma_dim_bounds(dim);
    lemma_room(p1, dim);
    lemma_corners_exist(p1);
    let b = extent(p1);
    let t1 = translated(p1, off);
    let t2 = translated(p2, off);
    let hx = choose|a: int| 0 <= a < p1.len() && (#[trigger] p1[a]).x == b.x;
    let hy = choose|a: int| 0 <= a < p1.len() && (#[trigger] p1[a]).y == b.y;
    let hz = choose|a: int| 0 <= a < p1.len() && (#[trigger] p1[a]).z == b.z;
    let gx = lemma_same_mask_same_cells(p1, p2, dim, hx);
    let gy = lemma_same_mask_same_cells(p1, p2, dim, hy);
    let gz = lemma_same_mask_same_cells(p1, p2, dim, hz);
    assert(p2[gx].inside(dim) && p2[gy].inside(dim) && p2[gz].inside(dim));
    assert(t2[gx].inside(dim) && t2[gy].inside(dim) && t2[gz].inside(dim));
    assert(t2[gx] == p2[gx].plus(off) && t2[gy] == p2[gy].plus(off) && t2[gz] == p2[gz].plus(off));
    assert(valid_offset(p1, dim, off));
    lemma_slide_inside(p1, dim, off);
    assert forall|a: int| 0 <= a < t2.len() implies t1.contains(#[trigger] t2[a]) by {
        let e = lemma_same_mask_same_cells(p2, p1, dim, a);
        assert(t1[e] == p1[e].plus(off));
        assert(t2[a] == p2[a].plus(off));
    }
    assert forall|a: int| 0 <= a < t1.len() implies t2.contains(#[trigger] t1[a]) by {
        let e = lemma_same_mask_same_cells(p1, p2, dim, a);
        assert(t2[e] == p2[e].plus(off));
        assert(t1[a] == p1[a].plus(off));
    }
}

/// The image of a placement under a rotation of the cuboid is the mask of any
/// list that has the turned cells of the placement.
proof fn lemma_image_is_mask(
    cells: Seq<Coord>,
    target: Seq<Coord>,
    p: Bitset,
    dim: Coord,
    r: int,
)
    requires
        valid_dim(dim),
        0 <= r < 24,
        is_symmetry(dim, r),
        all_inside(cells, dim),
        all_inside(target, dim),
        p.0 == mask_of(cells, dim),
        same_cells(posed(cells, dim, r), target),
    ensures
        image(p, dim, r).0 == mask_of(target, dim),
{
    let n = cell_count(dim);
    let img = posed(cells, dim, r);
    assert forall|q: int| 0 <= q < 64 implies bit(image(p, dim, r).0, q) == bit(
        mask_of(target, dim),
        q,
    ) by {
        lemma_image_bits(p.0, dim, r, n, q);
        lemma_mask_bits(target, dim, q);
        if bit(image(p, dim, r).0, q) {
            let mm = choose|mm: int|
                0 <= mm < n && #[trigger] bit(p.0, mm) && pose(cell_of(mm, dim), dim, r).index(dim)
                    == q;
            lemma_mask_bits(cells, dim, mm);
            let a = choose|a: int| 0 <= a < cells.len() && (#[trigger] cells[a]).index(dim) == mm;
            lemma_cell_of_index(cells[a], dim);
            assert(img[a] == pose(cells[a], dim, r));
            assert(target.contains(img[a]));
            let e = choose|e: int| 0 <= e < target.len() && target[e] == img[a];
            assert(target[e].index(dim) == q);
        }
        if bit(mask_of(target, dim), q) {
            let e = choose|e: int| 0 <= e < target.len() && (#[trigger] target[e]).index(dim) == q;
            assert(img.contains(target[e]));
            let a = choose|a: int| 0 <= a < img.len() && img[a] == target[e];
            assert(img[a] == pose(cells[a], dim, r));
            assert(cells[a].inside(dim));
            lemma_cell_of_index(cells[a], dim);
            let mm = cells[a].index(dim);
            lemma_mask_bits(cells, dim, mm);
            assert(bit(p.0, mm));
        }
    }
    crate::bitset::lemma_bits_equal(image(p, dim, r).0, mask_of(target, dim));
}

/// The placement set of a piece is closed under the rotations of the cuboid:
/// the image of a placement under a rotation that turns the cuboid onto itself
/// is a placement of the piece.
pub proof fn lemma_placements_turn(base: Seq<Coord>, dim: Coord, j: int, r: int) -> (w: int)
    requires
        valid_dim(dim),
        base.len() > 0,
        all_inside(base, dim),
        0 <= j < piece_placements(base, dim).len(),
        0 <= r < 24,
        is_symmetry(dim, r),
    ensures
        0 <= w < piece_placements(base, dim).len(),
        piece_placements(base, dim)[w] == image(piece_placements(base, dim)[j], dim, r),
{
    let places = piece_placements(base, dim);
    let poses = unique_poses(base, dim);
    lemma_unique_poses_ready(base, dim);
    let (i, t) = lemma_placement_origin(base, dim, j);
    lemma_unique_pose(base, dim, i);
    let cells = translated(poses[i], t);
    lemma_slide_inside(poses[i], dim, t);
    let (k2, off) = lemma_turned_cells(base, dim, i, t, r);
    let nf2 = normal_form(posed(base, dim, k2));
    let w0 = lemma_fitting_has(base, dim, 24, k2);
    let fitting = fitting_poses(base, dim, 24);
    lemma_first_by_mask_keeps(fitting, dim, fitting.len() as int, w0);
    let u = choose|u: int|
        0 <= u < poses.len() && mask_of(#[trigger] poses[u], dim) == mask_of(nf2, dim);
    lemma_unique_pose(base, dim, u);
    lemma_same_room(poses[u], nf2, dim, off);
    let target = translated(poses[u], off);
    lemma_image_is_mask(cells, target, places[j], dim, r);
    let w = lemma_placements_of_has(poses, dim, poses.len() as int, u, off);
    assert(places[w] == slide(poses[u], dim, off));
    w
}

/// A turn and the turn that undoes it, one after the other, leave everything
/// in place.
pub proof fn lemma_inverse(a: Rot, c: Coord, dim: Coord)
    requires
        is_turn(a),
        valid_dim(dim),
        c.inside(dim),
    ensures
        compose(a, inverse(a)) == identity(),
        compose(inverse(a), a) == identity(),
        is_turn(inverse(a)),
        apply(identity(), c, dim) == c,
        turned_dim(identity(), dim) == dim,
{
    lemma_dim_bounds(dim);
}

/// Every rotation of the cuboid is undone by a rotation of the cuboid.
pub proof fn lemma_inverse_pose(dim: Coord, r: int) -> (g: int)
    requires
        valid_dim(dim),
        0 <= r < 24,
        is_symmetry(dim, r),
    ensures
        0 <= g < 24,
        is_symmetry(dim, g),
        rot_of(g) == inverse(rot_of(r)),
{
    let origin = Coord { x: 0, y: 0, z: 0 };
    lemma_pose_is_rot(origin, dim, r);
    lemma_proper(rot_of(r), rot_of(r));
    let g = lemma_pose_index(inverse(rot_of(r)));
    lemma_pose_is_rot(origin, dim, g);
    lemma_inverse(rot_of(r), origin, dim);
    lemma_apply_compose(rot_of(r), rot_of(g), origin, dim);
    g
}

/// A cell turned by a rotation of the cuboid and by the rotation that undoes
/// it, in either order, is the cell.
pub proof fn lemma_inverse_pose_cell(c: Coord, dim: Coord, r: int, g: int)
    requires
        valid_dim(dim),
        c.inside(dim),
        0 <= r < 24,
        0 <= g < 24,
        is_symmetry(dim, r),
        is_symmetry(dim, g),
        rot_of(g) == inverse(rot_of(r)),
    ensures
        pose(pose(c, dim, r), dim, g) == c,
        pose(pose(c, dim, g), dim, r) == c,
        pose(c, dim, r).inside(dim),
        pose(c, dim, g).inside(dim),
{
    lemma_pose_is_rot(c, dim, r);
    lemma_pose_is_rot(c, dim, g);
    lemma_pose(c, c, dim, r);
    lemma_pose(c, c, dim, g);
    lemma_pose_is_rot(pose(c, dim, r), dim, g);
    lemma_pose_is_rot(pose(c, dim, g), dim, r);
    lemma_inverse(rot_of(r), c, dim);
    lemma_apply_compose(rot_of(r), rot_of(g), c, dim);
    lemma_apply_compose(rot_of(g), rot_of(r), c, dim);
}

} // verus!
