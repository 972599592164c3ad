//! Procedural generation of grid maps by constraint propagation.
//!
//! The crate has two layers. The geometry layer describes rectangular
//! grids in two and three dimensions: positions, sizes, axis-aligned
//! directions and dense maps of optional tile data. The collapse layer reduces
//! a grid of cells, each of which may still become one of several tile options,
//! to a grid in which every cell holds exactly one option that agrees with its
//! neighbours under a set of adjacency rules. Beside them stand a random
//! walker over the positions of a grid, and positions as vectors of signed
//! coordinates.
//!
//! Every executable function carries a contract that is checked by Verus.

pub mod position;
pub mod size;
pub mod direction;
pub mod dimension;
pub mod two_d;
pub mod three_d;
pub mod tile;
pub mod map;
pub mod id;
pub mod builders;
pub mod collapse;
pub mod vector;
pub mod walker;
