//! Exhaustive packing of polycube pieces into a cuboid of at most 64 unit cells.
//!
//! Cell sets are 64-bit words, one bit per cell. Pieces are turned through the
//! 24 rotations of the cube and slid through the cuboid to list their
//! placements; a backtracking search then fills the lowest empty cell first and
//! prunes positions that can no longer be completed.
//!
//! - `bitset`, `coord`, `text`: cell sets, cell addresses and the text forms of
//!   the input.
//! - `orientation`, `piece`: poses of a piece, its distinct orientations and its
//!   placement set.
//! - `puzzle`: the puzzle and the arrangement that the search works on.
//! - `solver`: the pruner, the search and the symmetry breaker.
//! - `rotation`, `count`, `symmetry`, `orbit`: what holds of them: the 24
//!   rotations are a group, the result of a search is determined by its input,
//!   and rotations of the cuboid take solutions to solutions.

pub mod bitset;
pub mod coord;
pub mod count;
pub mod orbit;
pub mod orientation;
pub mod piece;
pub mod puzzle;
pub mod rotation;
pub mod solver;
pub mod symmetry;
pub mod text;
