//! Cell coordinates and the cuboid's dimension.

use vstd::prelude::*;

verus! {

/// A signed triple: a cell of a piece, or the extent of the cuboid.
#[derive(Debug, Clone, Copy, Hash, PartialEq, Eq, Structural)]
pub struct Coord {
    pub x: i64,
    pub y: i64,
    pub z: i64,
}

/// A cuboid's dimension: three positive extents whose product is at most 64.
pub open spec fn valid_dim(dim: Coord) -> bool {
    &&& dim.x >= 1
    &&& dim.y >= 1
    &&& dim.z >= 1
    &&& dim.x * dim.y * dim.z <= 64
}

/// The number of cells of the cuboid.
pub open spec fn cell_count(dim: Coord) -> int {
    dim.x * dim.y * dim.z
}

/// No extent of a valid dimension is above 64, nor is the number of cells.
pub proof fn lemma_dim_bounds(dim: Coord)
    requires
        valid_dim(dim),
    ensures
        dim.x <= 64,
        dim.y <= 64,
        dim.z <= 64,
        1 <= dim.x * dim.y <= 64,
        1 <= cell_count(dim) <= 64,
{
    let (a, b, c) = (dim.x as int, dim.y as int, dim.z as int);
    assert(a * b >= 1 && a * b >= a && a * b >= b) by (nonlinear_arith)
        requires
            a >= 1,
            b >= 1,
    ;
    assert((a * b) * c >= a * b && (a * b) * c >= c) by (nonlinear_arith)
        requires
            a * b >= 1,
            c >= 1,
    ;
}

/// The index of an in-range cell is below the number of cells.
pub proof fn lemma_index_bound(c: Coord, dim: Coord)
    requires
        valid_dim(dim),
        c.inside(dim),
    ensures
        0 <= c.index(dim) < cell_count(dim),
{
    let (dx, dy, dz) = (dim.x as int, dim.y as int, dim.z as int);
    let (x, y, z) = (c.x as int, c.y as int, c.z as int);
    assert(0 <= z * dx * dy + y * dx + x < dx * dy * dz) by (nonlinear_arith)
        requires
            0 <= x < dx,
            0 <= y < dy,
            0 <= z < dz,
    ;
}

/// Index and coordinate determine each other inside the cuboid.
pub proof fn lemma_index_parts(c: Coord, dim: Coord)
    requires
        valid_dim(dim),
        c.inside(dim),
    ensures
        c.index(dim) % (dim.x as int) == c.x,
        (c.index(dim) / (dim.x as int)) % (dim.y as int) == c.y,
        c.index(dim) / (dim.x * dim.y) == c.z,
{
    let (dx, dy, dz) = (dim.x as int, dim.y as int, dim.z as int);
    let (x, y, z) = (c.x as int, c.y as int, c.z as int);
    let i = c.index(dim);
    lemma_dim_bounds(dim);
    assert(i == (z * dy + y) * dx + x) by (nonlinear_arith)
        requires
            i == z * dx * dy + y * dx + x,
    ;
    vstd::arithmetic::div_mod::lemma_fundamental_div_mod_converse(i, dx, z * dy + y, x);
    vstd::arithmetic::div_mod::lemma_fundamental_div_mod_converse(z * dy + y, dy, z, y);
    assert(i == z * (dx * dy) + (y * dx + x)) by (nonlinear_arith)
        requires
            i == z * dx * dy + y * dx + x,
    ;
    assert(0 <= y * dx + x < dx * dy) by (nonlinear_arith)
        requires
            0 <= x < dx,
            0 <= y < dy,
    ;
    vstd::arithmetic::div_mod::lemma_fundamental_div_mod_converse(i, dx * dy, z, y * dx + x);
}

/// Two cells of the cuboid with the same index are the same cell.
pub proof fn lemma_index_injective(a: Coord, b: Coord, dim: Coord)
    requires
        valid_dim(dim),
        a.inside(dim),
        b.inside(dim),
        a.index(dim) == b.index(dim),
    ensures
        a == b,
{
    lemma_index_parts(a, dim);
    lemma_index_parts(b, dim);
}

impl Coord {
    /// Whether the cell lies in the cuboid of dimension `dim`.
    pub open spec fn inside(self, dim: Coord) -> bool {
        &&& 0 <= self.x < dim.x
        &&& 0 <= self.y < dim.y
        &&& 0 <= self.z < dim.z
    }

    /// The linear index of the cell: `z * Dx * Dy + y * Dx + x`.
    pub open spec fn index(self, dim: Coord) -> int {
        self.z * dim.x * dim.y + self.y * dim.x + self.x
    }

    /// The cell moved by `t`.
    pub open spec fn plus(self, t: Coord) -> Coord {
        Coord { x: (self.x + t.x) as i64, y: (self.y + t.y) as i64, z: (self.z + t.z) as i64 }
    }

    /// A quarter turn about the x axis: `(x, y, z)` to `(x, -z, y)`.
    pub open spec fn turn_x(self) -> Coord {
        Coord { x: self.x, y: (-self.z) as i64, z: self.y }
    }

    /// A quarter turn about the y axis: `(x, y, z)` to `(z, y, -x)`.
    pub open spec fn turn_y(self) -> Coord {
        Coord { x: self.z, y: self.y, z: (-self.x) as i64 }
    }

    /// A quarter turn about the z axis: `(x, y, z)` to `(-y, x, z)`.
    pub open spec fn turn_z(self) -> Coord {
        Coord { x: (-self.y) as i64, y: self.x, z: self.z }
    }

    /// The dimension of the cuboid after a quarter turn about the x axis.
    pub open spec fn swap_yz(self) -> Coord {
        Coord { x: self.x, y: self.z, z: self.y }
    }

    /// The dimension of the cuboid after a quarter turn about the y axis.
    pub open spec fn swap_xz(self) -> Coord {
        Coord { x: self.z, y: self.y, z: self.x }
    }

    /// The dimension of the cuboid after a quarter turn about the z axis.
    pub open spec fn swap_xy(self) -> Coord {
        Coord { x: self.y, y: self.x, z: self.z }
    }

    /// The cell after the cuboid of dimension `dim` made a quarter turn about
    /// the x axis and was moved back to the origin corner.
    pub open spec fn spin_x(self, dim: Coord) -> Coord {
        Coord { x: self.x, y: (dim.z - 1 - self.z) as i64, z: self.y }
    }

    /// As `spin_x`, about the y axis.
    pub open spec fn spin_y(self, dim: Coord) -> Coord {
        Coord { x: self.z, y: self.y, z: (dim.x - 1 - self.x) as i64 }
    }

    /// As `spin_x`, about the z axis.
    pub open spec fn spin_z(self, dim: Coord) -> Coord {
        Coord { x: (dim.y - 1 - self.y) as i64, y: self.x, z: self.z }
    }

    /// The coordinate with the given parts.
    pub fn new(x: usize, y: usize, z: usize) -> (r: Coord)
        requires
            x <= i64::MAX,
            y <= i64::MAX,
            z <= i64::MAX,
        ensures
            r.x == x,
            r.y == y,
            r.z == z,
    {
        Coord { x: x as i64, y: y as i64, z: z as i64 }
    }

    /// The linear index of a cell of the cuboid.
    pub fn to_index(&self, dim: Coord) -> (r: usize)
        requires
            valid_dim(dim),
            self.inside(dim),
        ensures
            r == self.index(dim),
            r < cell_count(dim),
            r < 64,
    {
        proof {
            lemma_dim_bounds(dim);
            lemma_index_bound(*self, dim);
            let (dx, dy) = (dim.x as int, dim.y as int);
            let (y, z) = (self.y as int, self.z as int);
            assert(0 <= z * dx <= 64 * 64 && 0 <= z * dx * dy <= 64 * 64 * 64 && 0 <= y * dx <= 64
                * 64) by (nonlinear_arith)
                requires
                    0 <= z < 64,
                    0 <= y < 64,
                    1 <= dx <= 64,
                    1 <= dy <= 64,
            ;
        }
        (self.z * dim.x * dim.y + self.y * dim.x + self.x) as usize
    }

    /// The cell with linear index `index`.
    pub fn from_index(index: usize, dim: Coord) -> (r: Coord)
        requires
            valid_dim(dim),
            index <= i64::MAX,
        ensures
            r.x == index as int % dim.x as int,
            r.y == (index as int / dim.x as int) % dim.y as int,
            r.z == index as int / (dim.x * dim.y),
            index < cell_count(dim) ==> r.inside(dim) && r.index(dim) == index,
    {
        proof {
            lemma_dim_bounds(dim);
        }
        let dx: usize = dim.x as usize;
        let dy: usize = dim.y as usize;
        let r = Coord {
            x: (index % dx) as i64,
            y: ((index / dx) % dy) as i64,
            z: (index / (dx * dy)) as i64,
        };
        proof {
            if index < cell_count(dim) {
                lemma_from_index_inside(index as int, dim);
            }
        }
        r
    }

    /// A quarter turn about the x axis.
    pub fn rotate_x(&mut self)
        requires
            old(self).z > i64::MIN,
        ensures
            *final(self) == old(self).turn_x(),
    {
        let new_x: i64 = self.x;
        let new_y: i64 = -self.z;
        let new_z: i64 = self.y;
        self.x = new_x;
        self.y = new_y;
        self.z = new_z;
    }

    /// A quarter turn about the y axis.
    pub fn rotate_y(&mut self)
        requires
            old(self).x > i64::MIN,
        ensures
            *final(self) == old(self).turn_y(),
    {
        let new_x: i64 = self.z;
        let new_y: i64 = self.y;
        let new_z: i64 = -self.x;
        self.x = new_x;
        self.y = new_y;
        self.z = new_z;
    }

    /// A quarter turn about the z axis.
    pub fn rotate_z(&mut self)
        requires
            old(self).y > i64::MIN,
        ensures
            *final(self) == old(self).turn_z(),
    {
        let new_x: i64 = -self.y;
        let new_y: i64 = self.x;
        let new_z: i64 = self.z;
        self.x = new_x;
        self.y = new_y;
        self.z = new_z;
    }

    /// Wraps each coordinate into `0..dim`, by the Euclidean remainder.
    pub fn bound(&mut self, dim: Coord)
        requires
            dim.x > 0,
            dim.y > 0,
            dim.z > 0,
        ensures
            final(self).x == old(self).x as int % dim.x as int,
            final(self).y == old(self).y as int % dim.y as int,
            final(self).z == old(self).z as int % dim.z as int,
            final(self).inside(dim),
    {
        self.x = euclid_rem(self.x, dim.x);
        self.y = euclid_rem(self.y, dim.y);
        self.z = euclid_rem(self.z, dim.z);
    }
}

/// `i64::rem_euclid` of std: for a positive divisor, the least non-negative
/// remainder, which is what `%` means on mathematical integers.
#[verifier::external_body]
pub(crate) fn euclid_rem(a: i64, b: i64) -> (r: i64)
    requires
        b > 0,
    ensures
        r == a as int % b as int,
        0 <= r < b,
{
    a.rem_euclid(b)
}

/// The parts of an index below the cell count form a cell of the cuboid with
/// that index.
pub proof fn lemma_from_index_inside(i: int, dim: Coord)
    requires
        valid_dim(dim),
        0 <= i < cell_count(dim),
    ensures
        0 <= i % (dim.x as int) < dim.x,
        0 <= (i / (dim.x as int)) % (dim.y as int) < dim.y,
        0 <= i / (dim.x * dim.y) < dim.z,
        (i / (dim.x * dim.y)) * dim.x * dim.y + ((i / (dim.x as int)) % (dim.y as int)) * dim.x + i
            % (dim.x as int) == i,
{
    let (dx, dy, dz) = (dim.x as int, dim.y as int, dim.z as int);
    lemma_dim_bounds(dim);
    let q = i / dx;
    let x = i % dx;
    vstd::arithmetic::div_mod::lemma_fundamental_div_mod(i, dx);
    vstd::arithmetic::div_mod::lemma_fundamental_div_mod(q, dy);
    let z = q / dy;
    let y = q % dy;
    assert(0 <= q) by (nonlinear_arith)
        requires
            i == dx * q + x,
            0 <= x < dx,
            i >= 0,
            dx >= 1,
    ;
    assert(0 <= z) by (nonlinear_arith)
        requires
            q == dy * z + y,
            0 <= y < dy,
            q >= 0,
            dy >= 1,
    ;
    assert(i == z * (dx * dy) + (y * dx + x)) by (nonlinear_arith)
        requires
            i == dx * q + x,
            q == dy * z + y,
    ;
    assert(0 <= y * dx + x < dx * dy) by (nonlinear_arith)
        requires
            0 <= x < dx,
            0 <= y < dy,
    ;
    vstd::arithmetic::div_mod::lemma_fundamental_div_mod_converse(i, dx * dy, z, y * dx + x);
    assert(z < dz) by (nonlinear_arith)
        requires
            i == z * (dx * dy) + (y * dx + x),
            0 <= y * dx + x,
            i < dx * dy * dz,
            dx * dy >= 1,
    ;
    assert(z * dx * dy == z * (dx * dy)) by (nonlinear_arith);
}

} // verus!
