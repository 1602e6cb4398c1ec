//! Shortest-cost pathfinding over hexagonal grids whose cells carry a
//! per-cell traversal cost, together with a coordinate-geometry layer for
//! four hexagonal addressing schemes (axial, cubic, offset-with-orientation
//! and single-index spiral).
//!
//! Cubic coordinates `(x, y, z)` with `x + y + z == 0` are the canonical
//! form: neighbour discovery, ring enumeration and the distance metric are
//! all defined there, and the other addressing schemes reach them through
//! the conversion functions in [`helpers`].

use vstd::prelude::*;

pub mod helpers;
pub mod astar_axial;
pub mod astar_cubic;
pub mod astar_offset;
pub mod astar_spiral_hex;
pub mod search;

verus! {

/// Orientation of the hexagon space in Offset layouts. It decides which
/// neighbour-delta table applies to odd and even columns (flat-top) or rows
/// (pointy-top), and feeds the Offset <-> Cubic conversion formulas.
#[derive(Clone, Copy, Debug, PartialEq, Eq, Structural)]
pub enum HexOrientation {
    FlatTopOddUp,
    FlatTopOddDown,
    PointyTopOddRight,
    PointyTopOddLeft,
}

/// Why a search call could not produce a path.
#[derive(Clone, Copy, Debug, PartialEq, Eq, Structural)]
pub enum PathError {
    /// The start or the goal coordinate is not a key of the cost map.
    MissingNode,
    /// The start or the goal coordinate lies outside the declared search space.
    OutOfBounds,
    /// No path from start to goal was found.
    Unreachable,
}

} // verus!
