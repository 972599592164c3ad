//! Rectangular grids in three dimensions.
//!
//! A position has the coordinates `x`, `y` and `z`. Cells are laid out layer
//! by layer, and row by row within a layer: the offset of a position is
//! `z * width * height + y * width + x`.

use vstd::prelude::*;
use crate::dimension::Dimensionality;

pub mod position;
pub mod size;
pub mod direction;

pub use crate::three_d::direction::Direction3D;
pub use crate::three_d::direction::DirectionTable3D;
pub use crate::three_d::position::GridPosition3D;
pub use crate::three_d::size::GridSize3D;

verus! {

/// Dimensionality of rectangular grids with three axes.
#[derive(Debug, Clone, Copy)]
pub struct ThreeDim {}

impl Dimensionality for ThreeDim {
    type Pos = GridPosition3D;

    type Size = GridSize3D;

    type Dir = Direction3D;
}

} // verus!
