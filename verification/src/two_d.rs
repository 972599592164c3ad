//! Rectangular grids in two dimensions.
//!
//! A position has the coordinates `x`, along the horizontal axis, and `y`,
//! along the vertical one. Cells are laid out row by row: the offset of a
//! position is `y * width + x`.

use vstd::prelude::*;
use crate::dimension::Dimensionality;

pub mod position;
pub mod size;
pub mod direction;

pub use crate::two_d::direction::Direction2D;
pub use crate::two_d::direction::DirectionTable2D;
pub use crate::two_d::position::GridPosition2D;
pub use crate::two_d::size::GridSize2D;

verus! {

/// Dimensionality of rectangular grids with two axes.
#[derive(Debug, Clone, Copy)]
pub struct TwoDim {}

impl Dimensionality for TwoDim {
    type Pos = GridPosition2D;

    type Size = GridSize2D;

    type Dir = Direction2D;
}

} // verus!
