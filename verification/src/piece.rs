//! Pieces and their placement sets.

use vstd::prelude::*;
use itertools::Itertools;
use crate::bitset::{Bitset, Placement};
use crate::coord::{valid_dim, Coord, lemma_dim_bounds};
use crate::orientation::{
    all_inside, extent, mask_of, max_corner, normal_form, normalised, pose_dim, posed, translated,
    Orientation, lemma_pose,
};

verus! {

/// A piece: its display name, its glyph, the pose it was given in, and every
/// placement of it in the cuboid.
pub struct Piece {
    pub name: String,
    pub code: String,
    pub base: Orientation,
    pub placements: Vec<Placement>,
}

/// The cell lists of a sequence of poses.
pub open spec fn cell_lists(poses: Seq<Orientation>) -> Seq<Seq<Coord>> {
    Seq::new(poses.len(), |i: int| poses[i]@)
}

/// The normalised poses among the first `n` of the 24 that fit in the cuboid,
/// in the order of the poses.
pub open spec fn fitting_poses(cells: Seq<Coord>, dim: Coord, n: int) -> Seq<Seq<Coord>>
    decreases n,
{
    if n <= 0 {
        Seq::empty()
    } else {
        let rest = fitting_poses(cells, dim, n - 1);
        let p = normal_form(posed(cells, dim, n - 1));
        if all_inside(p, dim) {
            rest.push(p)
        } else {
            rest
        }
    }
}

/// Of the first `n` poses, those whose mask no earlier pose has, in order.
pub open spec fn first_by_mask(poses: Seq<Seq<Coord>>, dim: Coord, n: int) -> Seq<Seq<Coord>>
    decreases n,
{
    if n <= 0 {
        Seq::empty()
    } else {
        let rest = first_by_mask(poses, dim, n - 1);
        if exists|j: int|
            0 <= j < n - 1 && mask_of(#[trigger] poses[j], dim) == mask_of(poses[n - 1], dim) {
            rest
        } else {
            rest.push(poses[n - 1])
        }
    }
}

/// The distinct normalised poses of a piece that fit in the cuboid.
pub open spec fn unique_poses(cells: Seq<Coord>, dim: Coord) -> Seq<Seq<Coord>> {
    let fitting = fitting_poses(cells, dim, 24);
    first_by_mask(fitting, dim, fitting.len() as int)
}

/// The placement of a pose moved by `t`.
pub open spec fn slide(cells: Seq<Coord>, dim: Coord, t: Coord) -> Bitset {
    Bitset(mask_of(translated(cells, t), dim))
}

/// The number of positions of a pose along each axis.
pub open spec fn room(cells: Seq<Coord>, dim: Coord) -> Coord {
    let b = extent(cells);
    Coord { x: (dim.x - b.x) as i64, y: (dim.y - b.y) as i64, z: (dim.z - b.z) as i64 }
}

/// The placements at offsets `(x, y, 0)` to `(x, y, n - 1)`.
pub open spec fn slides_z(cells: Seq<Coord>, dim: Coord, x: int, y: int, n: int) -> Seq<Bitset> {
    Seq::new(
        if n < 0 { 0nat } else { n as nat },
        |z: int| slide(cells, dim, Coord { x: x as i64, y: y as i64, z: z as i64 }),
    )
}

/// The placements at offsets `(x, 0, _)` to `(x, n - 1, _)`, row after row.
pub open spec fn slides_y(cells: Seq<Coord>, dim: Coord, x: int, n: int) -> Seq<Bitset>
    decreases n,
{
    if n <= 0 {
        Seq::empty()
    } else {
        slides_y(cells, dim, x, n - 1) + slides_z(cells, dim, x, n - 1, room(cells, dim).z as int)
    }
}

/// The placements at offsets `(0, _, _)` to `(n - 1, _, _)`, layer after layer.
pub open spec fn slides_x(cells: Seq<Coord>, dim: Coord, n: int) -> Seq<Bitset>
    decreases n,
{
    if n <= 0 {
        Seq::empty()
    } else {
        slides_x(cells, dim, n - 1) + slides_y(cells, dim, n - 1, room(cells, dim).y as int)
    }
}

/// Every placement of one pose: x offsets outermost, z offsets innermost.
pub open spec fn slides(cells: Seq<Coord>, dim: Coord) -> Seq<Bitset> {
    slides_x(cells, dim, room(cells, dim).x as int)
}

/// The placements of the first `n` poses, pose after pose.
pub open spec fn placements_of(poses: Seq<Seq<Coord>>, dim: Coord, n: int) -> Seq<Bitset>
    decreases n,
{
    if n <= 0 {
        Seq::empty()
    } else {
        placements_of(poses, dim, n - 1) + slides(poses[n - 1], dim)
    }
}

/// The placement set of a piece given by the cell list `cells`.
pub open spec fn piece_placements(cells: Seq<Coord>, dim: Coord) -> Seq<Bitset> {
    let poses = unique_poses(cells, dim);
    placements_of(poses, dim, poses.len() as int)
}

/// Every pose of the list is non-empty, normalised and inside the cuboid.
pub open spec fn poses_ready(poses: Seq<Seq<Coord>>, dim: Coord) -> bool {
    forall|i: int|
        0 <= i < poses.len() ==> {
            &&& (#[trigger] poses[i]).len() > 0
            &&& normalised(poses[i])
            &&& all_inside(poses[i], dim)
        }
}

/// `Itertools::unique_by` of itertools, keyed by the mask of a pose: keeps, in
/// order, each pose whose mask no earlier pose of the list has.
#[verifier::external_body]
fn unique_by_mask(orientations: Vec<Orientation>, dim: Coord) -> (r: Vec<Orientation>)
    requires
        valid_dim(dim),
        forall|i: int| 0 <= i < orientations@.len() ==> all_inside((#[trigger] orientations@[i])@, dim),
    ensures
        cell_lists(r@) == first_by_mask(
            cell_lists(orientations@),
            dim,
            orientations@.len() as int,
        ),
{
    orientations.into_iter().unique_by(|o| o.mask_key(dim)).collect()
}

/// The poses kept by `first_by_mask` are poses of the list.
pub proof fn lemma_first_by_mask_members(poses: Seq<Seq<Coord>>, dim: Coord, n: int, k: int)
    requires
        0 <= n <= poses.len(),
        0 <= k < first_by_mask(poses, dim, n).len(),
    ensures
        exists|j: int| 0 <= j < n && #[trigger] poses[j] == first_by_mask(poses, dim, n)[k],
    decreases n,
{
    if n > 0 {
        let rest = first_by_mask(poses, dim, n - 1);
        if k < rest.len() {
            lemma_first_by_mask_members(poses, dim, n - 1, k);
            let j = choose|j: int| 0 <= j < n - 1 && #[trigger] poses[j] == rest[k];
            assert(0 <= j < n && poses[j] == first_by_mask(poses, dim, n)[k]);
        } else {
            assert(poses[n - 1] == first_by_mask(poses, dim, n)[k]);
        }
    }
}

/// The poses listed by `fitting_poses` are non-empty, normalised and inside
/// the cuboid, and each is the normal form of one of the 24 poses.
pub proof fn lemma_fitting_poses(cells: Seq<Coord>, dim: Coord, n: int, k: int)
    requires
        valid_dim(dim),
        cells.len() > 0,
        all_inside(cells, dim),
        0 <= n <= 24,
        0 <= k < fitting_poses(cells, dim, n).len(),
    ensures
        all_inside(fitting_poses(cells, dim, n)[k], dim),
        exists|r: int|
            0 <= r < n && #[trigger] normal_form(posed(cells, dim, r)) == fitting_poses(
                cells,
                dim,
                n,
            )[k],
    decreases n,
{
    if n > 0 {
        let rest = fitting_poses(cells, dim, n - 1);
        if k < rest.len() {
            lemma_fitting_poses(cells, dim, n - 1, k);
            let r = choose|r: int|
                0 <= r < n - 1 && #[trigger] normal_form(posed(cells, dim, r)) == rest[k];
            assert(0 <= r < n && normal_form(posed(cells, dim, r)) == fitting_poses(cells, dim, n)[k]);
        } else {
            assert(normal_form(posed(cells, dim, n - 1)) == fitting_poses(cells, dim, n)[k]);
        }
    }
}

/// `t` is an offset at which the pose stays in the cuboid.
pub open spec fn valid_offset(cells: Seq<Coord>, dim: Coord, t: Coord) -> bool {
    &&& 0 <= t.x < room(cells, dim).x
    &&& 0 <= t.y < room(cells, dim).y
    &&& 0 <= t.z < room(cells, dim).z
}

/// Placement `j` of the first `n` rows is the pose at an offset in those rows.
proof fn lemma_slides_y_at(cells: Seq<Coord>, dim: Coord, x: int, n: int, j: int) -> (r: (int, int))
    requires
        0 <= j < slides_y(cells, dim, x, n).len(),
    ensures
        0 <= r.0 < n,
        0 <= r.1 < room(cells, dim).z,
        slides_y(cells, dim, x, n)[j] == slide(
            cells,
            dim,
            Coord { x: x as i64, y: r.0 as i64, z: r.1 as i64 },
        ),
    decreases n,
{
    let head = slides_y(cells, dim, x, n - 1);
    if j < head.len() {
        lemma_slides_y_at(cells, dim, x, n - 1, j)
    } else {
        (n - 1, j - head.len())
    }
}

/// The pose at an offset in the first `n` rows is among their placements.
proof fn lemma_slides_y_has(cells: Seq<Coord>, dim: Coord, x: int, n: int, y: int, z: int) -> (j: int)
    requires
        0 <= y < n,
        0 <= z < room(cells, dim).z,
    ensures
        0 <= j < slides_y(cells, dim, x, n).len(),
        slides_y(cells, dim, x, n)[j] == slide(
            cells,
            dim,
            Coord { x: x as i64, y: y as i64, z: z as i64 },
        ),
    decreases n,
{
    let head = slides_y(cells, dim, x, n - 1);
    if y == n - 1 {
        head.len() + z
    } else {
        lemma_slides_y_has(cells, dim, x, n - 1, y, z)
    }
}

/// Placement `j` of the first `n` layers is the pose at an offset in those
/// layers.
proof fn lemma_slides_x_at(cells: Seq<Coord>, dim: Coord, n: int, j: int) -> (t: Coord)
    requires
        0 <= j < slides_x(cells, dim, n).len(),
        n <= 64,
        room(cells, dim).y <= 64,
        room(cells, dim).z <= 64,
    ensures
        0 <= t.x < n,
        0 <= t.y < room(cells, dim).y,
        0 <= t.z < room(cells, dim).z,
        slides_x(cells, dim, n)[j] == slide(cells, dim, t),
    decreases n,
{
    let head = slides_x(cells, dim, n - 1);
    if j < head.len() {
        lemma_slides_x_at(cells, dim, n - 1, j)
    } else {
        let (y, z) = lemma_slides_y_at(
            cells,
            dim,
            n - 1,
            room(cells, dim).y as int,
            j - head.len(),
        );
        Coord { x: (n - 1) as i64, y: y as i64, z: z as i64 }
    }
}

/// The pose at an offset in the first `n` layers is among their placements.
proof fn lemma_slides_x_has(cells: Seq<Coord>, dim: Coord, n: int, t: Coord) -> (j: int)
    requires
        0 <= t.x < n,
        0 <= t.y < room(cells, dim).y,
        0 <= t.z < room(cells, dim).z,
    ensures
        0 <= j < slides_x(cells, dim, n).len(),
        slides_x(cells, dim, n)[j] == slide(cells, dim, t),
    decreases n,
{
    let head = slides_x(cells, dim, n - 1);
    if t.x == n - 1 {
        head.len() + lemma_slides_y_has(
            cells,
            dim,
            n - 1,
            room(cells, dim).y as int,
            t.y as int,
            t.z as int,
        )
    } else {
        lemma_slides_x_has(cells, dim, n - 1, t)
    }
}

/// Placement `j` of the first `n` poses is a pose of the list at an offset
/// that keeps it in the cuboid.
pub proof fn lemma_placements_of_at(poses: Seq<Seq<Coord>>, dim: Coord, n: int, j: int) -> (r: (
    int,
    Coord,
))
    requires
        valid_dim(dim),
        poses_ready(poses, dim),
        0 <= n <= poses.len(),
        0 <= j < placements_of(poses, dim, n).len(),
    ensures
        0 <= r.0 < n,
        valid_offset(poses[r.0], dim, r.1),
        placements_of(poses, dim, n)[j] == slide(poses[r.0], dim, r.1),
    decreases n,
{
    let head = placements_of(poses, dim, n - 1);
    if j < head.len() {
        lemma_placements_of_at(poses, dim, n - 1, j)
    } else {
        lemma_room(poses[n - 1], dim);
        let t = lemma_slides_x_at(
            poses[n - 1],
            dim,
            room(poses[n - 1], dim).x as int,
            j - head.len(),
        );
        (n - 1, t)
    }
}

/// Each pose of the list is placed at each offset that keeps it in the cuboid.
pub proof fn lemma_placements_of_has(poses: Seq<Seq<Coord>>, dim: Coord, n: int, i: int, t: Coord) -> (j:
    int)
    requires
        0 <= i < n <= poses.len(),
        valid_offset(poses[i], dim, t),
    ensures
        0 <= j < placements_of(poses, dim, n).len(),
        placements_of(poses, dim, n)[j] == slide(poses[i], dim, t),
    decreases n,
{
    let head = placements_of(poses, dim, n - 1);
    if i == n - 1 {
        head.len() + lemma_slides_x_has(poses[i], dim, room(poses[i], dim).x as int, t)
    } else {
        lemma_placements_of_has(poses, dim, n - 1, i, t)
    }
}

/// A pose in the cuboid has between one position and as many as the cuboid is
/// long along each axis, and its extent is that of a cell of the cuboid.
pub proof fn lemma_room(cells: Seq<Coord>, dim: Coord)
    requires
        valid_dim(dim),
        cells.len() > 0,
        all_inside(cells, dim),
    ensures
        extent(cells).inside(dim),
        1 <= room(cells, dim).x <= 64,
        1 <= room(cells, dim).y <= 64,
        1 <= room(cells, dim).z <= 64,
        room(cells, dim).x == dim.x - extent(cells).x,
        room(cells, dim).y == dim.y - extent(cells).y,
        room(cells, dim).z == dim.z - extent(cells).z,
{
    crate::orientation::lemma_corners_exist(cells);
    lemma_dim_bounds(dim);
    let b = extent(cells);
    let kx = choose|k: int| 0 <= k < cells.len() && (#[trigger] cells[k]).x == b.x;
    let ky = choose|k: int| 0 <= k < cells.len() && (#[trigger] cells[k]).y == b.y;
    let kz = choose|k: int| 0 <= k < cells.len() && (#[trigger] cells[k]).z == b.z;
    assert(cells[kx].inside(dim) && cells[ky].inside(dim) && cells[kz].inside(dim));
}

/// A normalised pose moved by an offset with room for it lies in the cuboid,
/// and its cells stay apart.
pub proof fn lemma_slide_inside(cells: Seq<Coord>, dim: Coord, t: Coord)
    requires
        valid_dim(dim),
        cells.len() > 0,
        normalised(cells),
        all_inside(cells, dim),
        valid_offset(cells, dim, t),
    ensures
        all_inside(translated(cells, t), dim),
        translated(cells, t).len() == cells.len(),
        crate::orientation::distinct_cells(cells) ==> crate::orientation::distinct_cells(
            translated(cells, t),
        ),
{
    lemma_room(cells, dim);
    crate::orientation::lemma_corners_exist(cells);
    let b = extent(cells);
    let moved = translated(cells, t);
    assert forall|i: int| 0 <= i < cells.len() implies (#[trigger] moved[i]).inside(dim)
        && moved[i].x == cells[i].x + t.x && moved[i].y == cells[i].y + t.y && moved[i].z
        == cells[i].z + t.z by {
        assert(cells[i].inside(dim));
        assert(cells[i].x <= b.x && cells[i].y <= b.y && cells[i].z <= b.z);
    }
    if crate::orientation::distinct_cells(cells) {
        assert forall|i: int, j: int| 0 <= i < j < moved.len() implies moved[i] != moved[j] by {
            assert(cells[i] != cells[j]);
            assert(moved[i].x == cells[i].x + t.x && moved[j].x == cells[j].x + t.x);
        }
    }
}

/// Each of the distinct poses of a piece is the normal form of one of its 24
/// poses: non-empty, normalised, inside the cuboid, with as many cells as the
/// piece and, if the cells of the piece are apart, with its cells apart.
pub proof fn lemma_unique_pose(base: Seq<Coord>, dim: Coord, i: int) -> (k: int)
    requires
        valid_dim(dim),
        base.len() > 0,
        all_inside(base, dim),
        0 <= i < unique_poses(base, dim).len(),
    ensures
        0 <= k < 24,
        unique_poses(base, dim)[i] == normal_form(posed(base, dim, k)),
        unique_poses(base, dim)[i].len() == base.len(),
        normalised(unique_poses(base, dim)[i]),
        all_inside(unique_poses(base, dim)[i], dim),
        crate::orientation::distinct_cells(base) ==> crate::orientation::distinct_cells(
            unique_poses(base, dim)[i],
        ),
{
    let fitting = fitting_poses(base, dim, 24);
    lemma_first_by_mask_members(fitting, dim, fitting.len() as int, i);
    let w = choose|w: int| 0 <= w < fitting.len() && #[trigger] fitting[w] == unique_poses(base, dim)[i];
    lemma_fitting_poses(base, dim, 24, w);
    let k = choose|k: int|
        0 <= k < 24 && #[trigger] normal_form(posed(base, dim, k)) == fitting_poses(base, dim, 24)[w];
    let turned = posed(base, dim, k);
    let d = pose_dim(dim, k);
    assert forall|a: int| 0 <= a < turned.len() implies (#[trigger] turned[a]).inside(d) by {
        assert(base[a].inside(dim));
        lemma_pose(base[a], base[a], dim, k);
    }
    lemma_pose(base[0], base[0], dim, k);
    if crate::orientation::distinct_cells(base) {
        assert forall|a: int, b: int| 0 <= a < b < turned.len() implies turned[a] != turned[b] by {
            assert(base[a].inside(dim) && base[b].inside(dim));
            lemma_pose(base[a], base[b], dim, k);
        }
    }
    crate::orientation::lemma_normal_form(turned, d);
    k
}

/// The distinct poses of a piece are ready to be placed.
pub proof fn lemma_unique_poses_ready(base: Seq<Coord>, dim: Coord)
    requires
        valid_dim(dim),
        base.len() > 0,
        all_inside(base, dim),
    ensures
        poses_ready(unique_poses(base, dim), dim),
{
    let poses = unique_poses(base, dim);
    assert forall|i: int| 0 <= i < poses.len() implies (#[trigger] poses[i]).len() > 0
        && normalised(poses[i]) && all_inside(poses[i], dim) by {
        lemma_unique_pose(base, dim, i);
    }
}

/// Every placement of a piece is one of its distinct poses at an offset that
/// keeps it in the cuboid.
pub proof fn lemma_placement_origin(base: Seq<Coord>, dim: Coord, j: int) -> (r: (int, Coord))
    requires
        valid_dim(dim),
        base.len() > 0,
        all_inside(base, dim),
        0 <= j < piece_placements(base, dim).len(),
    ensures
        0 <= r.0 < unique_poses(base, dim).len(),
        valid_offset(unique_poses(base, dim)[r.0], dim, r.1),
        piece_placements(base, dim)[j] == slide(unique_poses(base, dim)[r.0], dim, r.1),
{
    let poses = unique_poses(base, dim);
    lemma_unique_poses_ready(base, dim);
    lemma_placements_of_at(poses, dim, poses.len() as int, j)
}

/// Every placement of a piece whose cells are apart has as many set bits as
/// the piece has cells. Every placement of any piece is a non-empty set of
/// cells of the cuboid.
pub proof fn lemma_placement_cell_count(base: Seq<Coord>, dim: Coord, j: int)
    requires
        valid_dim(dim),
        base.len() > 0,
        all_inside(base, dim),
        0 <= j < piece_placements(base, dim).len(),
    ensures
        crate::orientation::distinct_cells(base) ==> crate::bitset::popcount(
            piece_placements(base, dim)[j].0,
        ) == base.len(),
        piece_placements(base, dim)[j].0 != 0,
        crate::bitset::within(
            piece_placements(base, dim)[j].0,
            crate::bitset::full_mask(crate::coord::cell_count(dim)),
        ),
{
    let (i, t) = lemma_placement_origin(base, dim, j);
    let pose = unique_poses(base, dim)[i];
    lemma_unique_pose(base, dim, i);
    lemma_slide_inside(pose, dim, t);
    let moved = translated(pose, t);
    crate::orientation::lemma_mask_within(moved, dim);
    if crate::orientation::distinct_cells(base) {
        crate::orientation::lemma_mask_popcount(moved, dim);
    }
    crate::orientation::lemma_mask_bits(moved, dim, moved[0].index(dim));
    crate::bitset::lemma_bit_zero(moved[0].index(dim));
}

/// The placement set is closed under moves inside the cuboid: every placement
/// of a piece is the mask of a list of cells such that, wherever a move by at
/// most 64 along each axis keeps those cells in the cuboid, the moved cells are
/// a placement of the piece too.
pub proof fn lemma_placements_closed(base: Seq<Coord>, dim: Coord, j: int, t: Coord) -> (cells: Seq<
    Coord,
>)
    requires
        valid_dim(dim),
        base.len() > 0,
        all_inside(base, dim),
        0 <= j < piece_placements(base, dim).len(),
        -64 <= t.x <= 64,
        -64 <= t.y <= 64,
        -64 <= t.z <= 64,
    ensures
        all_inside(cells, dim),
        piece_placements(base, dim)[j].0 == mask_of(cells, dim),
        all_inside(translated(cells, t), dim) ==> piece_placements(base, dim).contains(
            Bitset(mask_of(translated(cells, t), dim)),
        ),
{
    let (i, at) = lemma_placement_origin(base, dim, j);
    let poses = unique_poses(base, dim);
    let pose = poses[i];
    lemma_unique_pose(base, dim, i);
    lemma_slide_inside(pose, dim, at);
    lemma_room(pose, dim);
    lemma_dim_bounds(dim);
    crate::orientation::lemma_corners_exist(pose);
    let cells = translated(pose, at);
    let moved = translated(cells, t);
    if all_inside(moved, dim) {
        let b = extent(pose);
        let to = Coord { x: (at.x + t.x) as i64, y: (at.y + t.y) as i64, z: (at.z + t.z) as i64 };
        let lx = choose|k: int| 0 <= k < pose.len() && (#[trigger] pose[k]).x == 0;
        let ly = choose|k: int| 0 <= k < pose.len() && (#[trigger] pose[k]).y == 0;
        let lz = choose|k: int| 0 <= k < pose.len() && (#[trigger] pose[k]).z == 0;
        let hx = choose|k: int| 0 <= k < pose.len() && (#[trigger] pose[k]).x == b.x;
        let hy = choose|k: int| 0 <= k < pose.len() && (#[trigger] pose[k]).y == b.y;
        let hz = choose|k: int| 0 <= k < pose.len() && (#[trigger] pose[k]).z == b.z;
        assert forall|k: int| 0 <= k < pose.len() implies (#[trigger] moved[k]).x == pose[k].x + at.x
            + t.x && moved[k].y == pose[k].y + at.y + t.y && moved[k].z == pose[k].z + at.z + t.z by {
            assert(pose[k].inside(dim));
            assert(cells[k] == pose[k].plus(at));
            assert(moved[k] == cells[k].plus(t));
        }
        assert(moved[lx].inside(dim) && moved[ly].inside(dim) && moved[lz].inside(dim));
        assert(moved[hx].inside(dim) && moved[hy].inside(dim) && moved[hz].inside(dim));
        assert(valid_offset(pose, dim, to));
        assert(moved =~= translated(pose, to)) by {
            assert forall|k: int| 0 <= k < pose.len() implies moved[k] == translated(pose, to)[k] by {
                assert(pose[k].inside(dim));
            }
        }
        let w = lemma_placements_of_has(poses, dim, poses.len() as int, i, to);
        assert(piece_placements(base, dim)[w] == Bitset(mask_of(moved, dim)));
    }
    cells
}

/// No placement occurs twice in the list.
pub open spec fn no_repeats(s: Seq<Bitset>) -> bool {
    forall|a: int, b: int| 0 <= a < b < s.len() ==> s[a] != s[b]
}

/// Two lists without repeats that share no placement make a list without
/// repeats.
pub proof fn lemma_no_repeats_concat(s: Seq<Bitset>, t: Seq<Bitset>)
    requires
        no_repeats(s),
        no_repeats(t),
        forall|a: int, b: int| 0 <= a < s.len() && 0 <= b < t.len() ==> s[a] != t[b],
    ensures
        no_repeats(s + t),
{
    let u = s + t;
    assert forall|a: int, b: int| 0 <= a < b < u.len() implies u[a] != u[b] by {
        if b < s.len() {
            assert(u[a] == s[a] && u[b] == s[b]);
        } else if a < s.len() {
            assert(u[a] == s[a] && u[b] == t[b - s.len()]);
        } else {
            assert(u[a] == t[a - s.len()] && u[b] == t[b - s.len()]);
        }
    }
}

/// Each cell of a list is a cell of any list with the same mask.
pub proof fn lemma_same_mask_same_cells(a: Seq<Coord>, b: Seq<Coord>, dim: Coord, i: int) -> (j: int)
    requires
        valid_dim(dim),
        all_inside(a, dim),
        all_inside(b, dim),
        mask_of(a, dim) == mask_of(b, dim),
        0 <= i < a.len(),
    ensures
        0 <= j < b.len(),
        b[j] == a[i],
{
    let at = a[i].index(dim);
    crate::orientation::lemma_mask_bits(a, dim, at);
    crate::orientation::lemma_mask_bits(b, dim, at);
    let j = choose|j: int| 0 <= j < b.len() && (#[trigger] b[j]).index(dim) == at;
    crate::coord::lemma_index_injective(a[i], b[j], dim);
    j
}

/// Two placements that are the same word come from poses with the same mask,
/// at the same offset.
pub proof fn lemma_slide_unique(o1: Seq<Coord>, t1: Coord, o2: Seq<Coord>, t2: Coord, dim: Coord)
    requires
        valid_dim(dim),
        o1.len() > 0,
        o2.len() > 0,
        normalised(o1),
        normalised(o2),
        all_inside(o1, dim),
        all_inside(o2, dim),
        valid_offset(o1, dim, t1),
        valid_offset(o2, dim, t2),
        slide(o1, dim, t1) == slide(o2, dim, t2),
    ensures
        t1 == t2,
        mask_of(o1, dim) == mask_of(o2, dim),
{
    let a = translated(o1, t1);
    let b = translated(o2, t2);
    lemma_slide_inside(o1, dim, t1);
    lemma_slide_inside(o2, dim, t2);
    lemma_room(o1, dim);
    lemma_room(o2, dim);
    lemma_dim_bounds(dim);
    assert forall|i: int| 0 <= i < o1.len() implies (#[trigger] a[i]).x == o1[i].x + t1.x && a[i].y
        == o1[i].y + t1.y && a[i].z == o1[i].z + t1.z && o1[i].x >= 0 && o1[i].y >= 0 && o1[i].z
        >= 0 by {
        assert(o1[i].inside(dim));
        assert(a[i] == o1[i].plus(t1));
    }
    assert forall|i: int| 0 <= i < o2.len() implies (#[trigger] b[i]).x == o2[i].x + t2.x && b[i].y
        == o2[i].y + t2.y && b[i].z == o2[i].z + t2.z && o2[i].x >= 0 && o2[i].y >= 0 && o2[i].z
        >= 0 by {
        assert(o2[i].inside(dim));
        assert(b[i] == o2[i].plus(t2));
    }
    let ax = choose|k: int| 0 <= k < o1.len() && (#[trigger] o1[k]).x == 0;
    let ay = choose|k: int| 0 <= k < o1.len() && (#[trigger] o1[k]).y == 0;
    let az = choose|k: int| 0 <= k < o1.len() && (#[trigger] o1[k]).z == 0;
    let bx = choose|k: int| 0 <= k < o2.len() && (#[trigger] o2[k]).x == 0;
    let by = choose|k: int| 0 <= k < o2.len() && (#[trigger] o2[k]).y == 0;
    let bz = choose|k: int| 0 <= k < o2.len() && (#[trigger] o2[k]).z == 0;
    let jx = lemma_same_mask_same_cells(a, b, dim, ax);
    let jy = lemma_same_mask_same_cells(a, b, dim, ay);
    let jz = lemma_same_mask_same_cells(a, b, dim, az);
    let ix = lemma_same_mask_same_cells(b, a, dim, bx);
    let iy = lemma_same_mask_same_cells(b, a, dim, by);
    let iz = lemma_same_mask_same_cells(b, a, dim, bz);
    assert(a[ax].x == t1.x && b[jx].x >= t2.x && b[bx].x == t2.x && a[ix].x >= t1.x);
    assert(a[ay].y == t1.y && b[jy].y >= t2.y && b[by].y == t2.y && a[iy].y >= t1.y);
    assert(a[az].z == t1.z && b[jz].z >= t2.z && b[bz].z == t2.z && a[iz].z >= t1.z);
    assert(t1 == t2);
    assert forall|i: int| 0 <= i < 64 implies crate::bitset::bit(mask_of(o1, dim), i)
        == crate::bitset::bit(mask_of(o2, dim), i) by {
        crate::orientation::lemma_mask_bits(o1, dim, i);
        crate::orientation::lemma_mask_bits(o2, dim, i);
        if crate::bitset::bit(mask_of(o1, dim), i) {
            let k = choose|k: int| 0 <= k < o1.len() && (#[trigger] o1[k]).index(dim) == i;
            let j = lemma_same_mask_same_cells(a, b, dim, k);
            assert(o2[j] == o1[k]);
        }
        if crate::bitset::bit(mask_of(o2, dim), i) {
            let k = choose|k: int| 0 <= k < o2.len() && (#[trigger] o2[k]).index(dim) == i;
            let j = lemma_same_mask_same_cells(b, a, dim, k);
            assert(o1[j] == o2[k]);
        }
    }
    crate::bitset::lemma_bits_equal(mask_of(o1, dim), mask_of(o2, dim));
}

/// The placements of the first `n` rows hold no placement twice.
proof fn lemma_slides_y_no_repeats(cells: Seq<Coord>, dim: Coord, x: int, n: int)
    requires
        valid_dim(dim),
        cells.len() > 0,
        normalised(cells),
        all_inside(cells, dim),
        0 <= x < room(cells, dim).x,
        n <= room(cells, dim).y,
    ensures
        no_repeats(slides_y(cells, dim, x, n)),
    decreases n,
{
    lemma_room(cells, dim);
    if n > 0 {
        lemma_slides_y_no_repeats(cells, dim, x, n - 1);
        let head = slides_y(cells, dim, x, n - 1);
        let tail = slides_z(cells, dim, x, n - 1, room(cells, dim).z as int);
        assert forall|a: int, b: int| 0 <= a < b < tail.len() implies tail[a] != tail[b] by {
            if tail[a] == tail[b] {
                lemma_slide_unique(
                    cells,
                    Coord { x: x as i64, y: (n - 1) as i64, z: a as i64 },
                    cells,
                    Coord { x: x as i64, y: (n - 1) as i64, z: b as i64 },
                    dim,
                );
            }
        }
        assert forall|a: int, b: int| 0 <= a < head.len() && 0 <= b < tail.len() implies head[a]
            != tail[b] by {
            if head[a] == tail[b] {
                let (y, z) = lemma_slides_y_at(cells, dim, x, n - 1, a);
                lemma_slide_unique(
                    cells,
                    Coord { x: x as i64, y: y as i64, z: z as i64 },
                    cells,
                    Coord { x: x as i64, y: (n - 1) as i64, z: b as i64 },
                    dim,
                );
            }
        }
        lemma_no_repeats_concat(head, tail);
    }
}

/// The placements of the first `n` layers hold no placement twice.
proof fn lemma_slides_x_no_repeats(cells: Seq<Coord>, dim: Coord, n: int)
    requires
        valid_dim(dim),
        cells.len() > 0,
        normalised(cells),
        all_inside(cells, dim),
        n <= room(cells, dim).x,
    ensures
        no_repeats(slides_x(cells, dim, n)),
    decreases n,
{
    lemma_room(cells, dim);
    if n > 0 {
        lemma_slides_x_no_repeats(cells, dim, n - 1);
        let ry = room(cells, dim).y as int;
        lemma_slides_y_no_repeats(cells, dim, n - 1, ry);
        let head = slides_x(cells, dim, n - 1);
        let tail = slides_y(cells, dim, n - 1, ry);
        assert forall|a: int, b: int| 0 <= a < head.len() && 0 <= b < tail.len() implies head[a]
            != tail[b] by {
            if head[a] == tail[b] {
                let t = lemma_slides_x_at(cells, dim, n - 1, a);
                let (y, z) = lemma_slides_y_at(cells, dim, n - 1, ry, b);
                lemma_slide_unique(
                    cells,
                    t,
                    cells,
                    Coord { x: (n - 1) as i64, y: y as i64, z: z as i64 },
                    dim,
                );
            }
        }
        lemma_no_repeats_concat(head, tail);
    }
}

/// The placements of poses with different masks hold no placement twice.
pub proof fn lemma_placements_of_no_repeats(poses: Seq<Seq<Coord>>, dim: Coord, n: int)
    requires
        valid_dim(dim),
        poses_ready(poses, dim),
        0 <= n <= poses.len(),
        forall|a: int, b: int|
            0 <= a < b < poses.len() ==> mask_of(#[trigger] poses[a], dim) != mask_of(
                #[trigger] poses[b],
                dim,
            ),
    ensures
        no_repeats(placements_of(poses, dim, n)),
    decreases n,
{
    if n > 0 {
        lemma_placements_of_no_repeats(poses, dim, n - 1);
        let pose = poses[n - 1];
        lemma_room(pose, dim);
        lemma_slides_x_no_repeats(pose, dim, room(pose, dim).x as int);
        let head = placements_of(poses, dim, n - 1);
        let tail = slides(pose, dim);
        assert forall|a: int, b: int| 0 <= a < head.len() && 0 <= b < tail.len() implies head[a]
            != tail[b] by {
            if head[a] == tail[b] {
                let (i, t) = lemma_placements_of_at(poses, dim, n - 1, a);
                let u = lemma_slides_x_at(pose, dim, room(pose, dim).x as int, b);
                lemma_slide_unique(poses[i], t, pose, u, dim);
            }
        }
        lemma_no_repeats_concat(head, tail);
    }
}

/// The placement set of a piece holds no placement twice.
pub proof fn lemma_piece_placements_no_repeats(base: Seq<Coord>, dim: Coord)
    requires
        valid_dim(dim),
        base.len() > 0,
        all_inside(base, dim),
    ensures
        no_repeats(piece_placements(base, dim)),
{
    let poses = unique_poses(base, dim);
    let fitting = fitting_poses(base, dim, 24);
    lemma_unique_poses_ready(base, dim);
    assert forall|a: int, b: int| 0 <= a < b < poses.len() implies mask_of(
        #[trigger] poses[a],
        dim,
    ) != mask_of(#[trigger] poses[b], dim) by {
        lemma_first_by_mask_distinct(fitting, dim, fitting.len() as int, a, b);
    }
    lemma_placements_of_no_repeats(poses, dim, poses.len() as int);
}

/// No two of the poses kept by `first_by_mask` have the same mask.
pub proof fn lemma_first_by_mask_distinct(poses: Seq<Seq<Coord>>, dim: Coord, n: int, a: int, b: int)
    requires
        0 <= n <= poses.len(),
        0 <= a < b < first_by_mask(poses, dim, n).len(),
    ensures
        mask_of(first_by_mask(poses, dim, n)[a], dim) != mask_of(
            first_by_mask(poses, dim, n)[b],
            dim,
        ),
    decreases n,
{
    if n > 0 {
        let rest = first_by_mask(poses, dim, n - 1);
        if b < rest.len() {
            lemma_first_by_mask_distinct(poses, dim, n - 1, a, b);
        } else {
            lemma_first_by_mask_members(poses, dim, n - 1, a);
        }
    }
}

impl Piece {
    /// The piece has the placement set of its base pose in the cuboid of
    /// dimension `dim`.
    pub open spec fn generated(self, dim: Coord) -> bool {
        &&& self.base@.len() > 0
        &&& all_inside(self.base@, dim)
        &&& self.placements@ == piece_placements(self.base@, dim)
    }

    /// A piece with the placement set of `base` in the cuboid of dimension
    /// `dim`.
    pub fn new(name: String, code: String, base: Orientation, dim: Coord) -> (piece: Piece)
        requires
            valid_dim(dim),
            base@.len() > 0,
            all_inside(base@, dim),
        ensures
            piece.name == name,
            piece.code == code,
            piece.base@ == base@,
            piece.placements@ == piece_placements(base@, dim),
            piece.generated(dim),
            no_repeats(piece.placements@),
            forall|j: int|
                0 <= j < piece.placements@.len() ==> {
                    &&& (#[trigger] piece.placements@[j]).0 != 0
                    &&& crate::bitset::within(
                        piece.placements@[j].0,
                        crate::bitset::full_mask(crate::coord::cell_count(dim)),
                    )
                    &&& crate::orientation::distinct_cells(base@) ==> crate::bitset::popcount(
                        piece.placements@[j].0,
                    ) == base@.len()
                },
    {
        let mut piece = Piece { name, code, base, placements: Vec::new() };
        let orientations = piece.generate_unique_orientations(dim);
        piece.compute_possible_positions(&orientations, dim);
        proof {
            assert(placements_of(
                cell_lists(orientations@),
                dim,
                orientations@.len() as int,
            ) == piece_placements(base@, dim));
            assert(piece.placements@ =~= piece_placements(base@, dim));
            lemma_piece_placements_no_repeats(base@, dim);
            assert forall|j: int| 0 <= j < piece.placements@.len() implies {
                &&& (#[trigger] piece.placements@[j]).0 != 0
                &&& crate::bitset::within(
                    piece.placements@[j].0,
                    crate::bitset::full_mask(crate::coord::cell_count(dim)),
                )
                &&& crate::orientation::distinct_cells(base@) ==> crate::bitset::popcount(
                    piece.placements@[j].0,
                ) == base@.len()
            } by {
                lemma_placement_cell_count(base@, dim, j);
            }
        }
        piece
    }

    /// The placements of the piece.
    pub fn placements(&self) -> (r: &Vec<Placement>)
        ensures
            r@ == self.placements@,
    {
        &self.placements
    }

    /// The distinct normalised poses of the piece that fit in the cuboid: each
    /// of the 24 poses is moved to the origin corner, those that reach out of
    /// the cuboid are left out, and of several with one mask the first stays.
    pub fn generate_unique_orientations(&self, dim: Coord) -> (r: Vec<Orientation>)
        requires
            valid_dim(dim),
            self.base@.len() > 0,
            all_inside(self.base@, dim),
        ensures
            cell_lists(r@) == unique_poses(self.base@, dim),
            poses_ready(cell_lists(r@), dim),
    {
        let (orientations, _dims) = self.base.poses(dim);
        proof {
            assert forall|j: int| 0 <= j < 24 implies all_inside(
                posed(self.base@, dim, j),
                #[trigger] pose_dim(dim, j),
            ) by {
                assert(orientations@[j]@ == posed(self.base@, dim, j));
            }
        }
        let mut fitting: Vec<Orientation> = Vec::new();
        let mut k: usize = 0;
        while k < 24
            invariant
                k <= 24,
                valid_dim(dim),
                self.base@.len() > 0,
                all_inside(self.base@, dim),
                orientations@.len() == 24,
                forall|j: int|
                    k <= j < 24 ==> (#[trigger] orientations@[j])@ == posed(self.base@, dim, j),
                forall|j: int|
                    0 <= j < 24 ==> all_inside(posed(self.base@, dim, j), #[trigger] pose_dim(dim, j)),
                forall|j: int| 0 <= j < 24 ==> valid_dim(#[trigger] pose_dim(dim, j)),
                cell_lists(fitting@) == fitting_poses(self.base@, dim, k as int),
                poses_ready(cell_lists(fitting@), dim),
            decreases 24 - k,
        {
            let mut o = orientations[k].clone();
            proof {
                let d = pose_dim(dim, k as int);
                lemma_dim_bounds(d);
                assert(all_inside(o@, d));
                assert forall|i: int, j: int| 0 <= i < o@.len() && 0 <= j < o@.len() implies {
                    &&& i64::MIN <= (#[trigger] o@[i]).x - (#[trigger] o@[j]).x <= i64::MAX
                    &&& i64::MIN <= o@[i].y - o@[j].y <= i64::MAX
                    &&& i64::MIN <= o@[i].z - o@[j].z <= i64::MAX
                } by {
                    assert(o@[i].inside(d) && o@[j].inside(d));
                }
            }
            o.normalise();
            let ghost before = cell_lists(fitting@);
            if o.fits(dim) {
                let ghost cells = o@;
                fitting.push(o);
                proof {
                    assert(cell_lists(fitting@) =~= before.push(cells));
                }
            }
            k = k + 1;
        }
        proof {
            assert forall|i: int| 0 <= i < fitting@.len() implies all_inside(
                (#[trigger] fitting@[i])@,
                dim,
            ) by {
                assert(cell_lists(fitting@)[i] == fitting@[i]@);
            }
        }
        let ghost lists = cell_lists(fitting@);
        let unique = unique_by_mask(fitting, dim);
        proof {
            assert forall|i: int| 0 <= i < cell_lists(unique@).len() implies {
                &&& (#[trigger] cell_lists(unique@)[i]).len() > 0
                &&& normalised(cell_lists(unique@)[i])
                &&& all_inside(cell_lists(unique@)[i], dim)
            } by {
                lemma_first_by_mask_members(lists, dim, lists.len() as int, i);
            }
        }
        unique
    }

    /// Adds every placement of every listed pose to the placement set: for
    /// each pose in turn, each offset that keeps it in the cuboid, x offsets
    /// outermost and z offsets innermost.
    pub fn compute_possible_positions(
        &mut self,
        unique_orientations: &Vec<Orientation>,
        dim: Coord,
    )
        requires
            valid_dim(dim),
            poses_ready(cell_lists(unique_orientations@), dim),
        ensures
            final(self).name == old(self).name,
            final(self).code == old(self).code,
            final(self).base == old(self).base,
            final(self).placements@ == old(self).placements@ + placements_of(
                cell_lists(unique_orientations@),
                dim,
                unique_orientations@.len() as int,
            ),
    {
        let ghost poses = cell_lists(unique_orientations@);
        let ghost start = self.placements@;
        let mut oi: usize = 0;
        proof {
            lemma_dim_bounds(dim);
        }
        while oi < unique_orientations.len()
            invariant
                oi <= unique_orientations@.len(),
                valid_dim(dim),
                dim.x <= 64 && dim.y <= 64 && dim.z <= 64,
                poses == cell_lists(unique_orientations@),
                poses_ready(poses, dim),
                self.name == old(self).name,
                self.code == old(self).code,
                self.base == old(self).base,
                self.placements@ == start + placements_of(poses, dim, oi as int),
            decreases unique_orientations@.len() - oi,
        {
            let orientation = &unique_orientations[oi];
            let ghost cells = orientation@;
            assert(cells == poses[oi as int]);
            let b = orientation.bounds();
            proof {
                let kx = choose|k: int| 0 <= k < cells.len() && (#[trigger] cells[k]).x == b.x;
                let ky = choose|k: int| 0 <= k < cells.len() && (#[trigger] cells[k]).y == b.y;
                let kz = choose|k: int| 0 <= k < cells.len() && (#[trigger] cells[k]).z == b.z;
                assert(cells[kx].inside(dim) && cells[ky].inside(dim) && cells[kz].inside(dim));
            }
            let ghost done = self.placements@;
            let rx: i64 = dim.x - b.x;
            let ry: i64 = dim.y - b.y;
            let rz: i64 = dim.z - b.z;
            assert(room(cells, dim) == Coord { x: rx, y: ry, z: rz });
            let mut x_off: i64 = 0;
            while x_off < rx
                invariant
                    0 <= x_off <= rx,
                    valid_dim(dim),
                    dim.x <= 64 && dim.y <= 64 && dim.z <= 64,
                    cells == orientation@,
                    cells.len() > 0,
                    normalised(cells),
                    max_corner(cells, b),
                    0 <= b.x < dim.x && 0 <= b.y < dim.y && 0 <= b.z < dim.z,
                    rx == dim.x - b.x && ry == dim.y - b.y && rz == dim.z - b.z,
                    room(cells, dim) == (Coord { x: rx, y: ry, z: rz }),
                    self.name == old(self).name,
                    self.code == old(self).code,
                    self.base == old(self).base,
                    self.placements@ == done + slides_x(cells, dim, x_off as int),
                decreases rx - x_off,
            {
                let ghost done_x = self.placements@;
                let mut y_off: i64 = 0;
                while y_off < ry
                    invariant
                        0 <= x_off < rx,
                        0 <= y_off <= ry,
                        valid_dim(dim),
                        dim.x <= 64 && dim.y <= 64 && dim.z <= 64,
                        cells == orientation@,
                        cells.len() > 0,
                        normalised(cells),
                        max_corner(cells, b),
                        0 <= b.x < dim.x && 0 <= b.y < dim.y && 0 <= b.z < dim.z,
                        rx == dim.x - b.x && ry == dim.y - b.y && rz == dim.z - b.z,
                        room(cells, dim) == (Coord { x: rx, y: ry, z: rz }),
                        self.name == old(self).name,
                        self.code == old(self).code,
                        self.base == old(self).base,
                        self.placements@ == done_x + slides_y(cells, dim, x_off as int, y_off as int),
                    decreases ry - y_off,
                {
                    let ghost done_y = self.placements@;
                    let mut z_off: i64 = 0;
                    while z_off < rz
                        invariant
                            0 <= x_off < rx,
                            0 <= y_off < ry,
                            0 <= z_off <= rz,
                            valid_dim(dim),
                            dim.x <= 64 && dim.y <= 64 && dim.z <= 64,
                            cells == orientation@,
                            cells.len() > 0,
                            normalised(cells),
                            max_corner(cells, b),
                            0 <= b.x < dim.x && 0 <= b.y < dim.y && 0 <= b.z < dim.z,
                            rx == dim.x - b.x && ry == dim.y - b.y && rz == dim.z - b.z,
                            self.name == old(self).name,
                            self.code == old(self).code,
                            self.base == old(self).base,
                            self.placements@ == done_y + slides_z(
                                cells,
                                dim,
                                x_off as int,
                                y_off as int,
                                z_off as int,
                            ),
                        decreases rz - z_off,
                    {
                        let t = Coord { x: x_off, y: y_off, z: z_off };
                        proof {
                            assert forall|i: int| 0 <= i < cells.len() implies (
                            #[trigger] translated(cells, t)[i]).inside(dim) && 0 <= cells[i].x
                                <= b.x && 0 <= cells[i].y <= b.y && 0 <= cells[i].z <= b.z by {
                                assert(cells[i].x <= b.x);
                            }
                        }
                        let new_pos = orientation.shifted(t);
                        let placement = Bitset::from_orientation(&new_pos, dim);
                        self.placements.push(placement);
                        proof {
                            assert(placement == slide(cells, dim, t));
                            assert(self.placements@ =~= done_y + slides_z(
                                cells,
                                dim,
                                x_off as int,
                                y_off as int,
                                z_off + 1,
                            ));
                        }
                        z_off = z_off + 1;
                    }
                    proof {
                        assert(self.placements@ =~= done_x + slides_y(
                            cells,
                            dim,
                            x_off as int,
                            y_off + 1,
                        ));
                    }
                    y_off = y_off + 1;
                }
                proof {
                    assert(self.placements@ =~= done + slides_x(cells, dim, x_off + 1));
                }
                x_off = x_off + 1;
            }
            proof {
                assert(self.placements@ =~= start + placements_of(poses, dim, oi + 1));
            }
            oi = oi + 1;
        }
    }
}

} // verus!
