//! Dimensionality of a grid.

use vstd::prelude::*;
use crate::direction::Direction;
use crate::position::GridPosition;
use crate::size::GridSize;

verus! {

/// Fixes the number of axes of a grid, and with it the types of its
/// positions, sizes and directions.
pub trait Dimensionality: Sized {
    /// Position of a cell of the grid.
    type Pos: GridPosition;

    /// Size of the grid.
    type Size: GridSize<Pos = Self::Pos>;

    /// Directions toward the neighbours of a cell.
    type Dir: Direction<Pos = Self::Pos, Size = Self::Size>;
}

} // verus!
