//! Tile data and the containers that pair it with a position.

use vstd::prelude::*;
use crate::dimension::Dimensionality;
use crate::three_d::ThreeDim;
use crate::two_d::TwoDim;

verus! {

/// Marker of the data that can be stored in the cells of a grid map.
pub trait TileData {

}

impl TileData for () {

}

/// A container which knows the position of its tile.
pub trait TileContainer<D: Dimensionality> {
    /// Position of the tile.
    spec fn spec_grid_position(&self) -> D::Pos;

    /// Position of the tile.
    fn grid_position(&self) -> (r: D::Pos)
        ensures
            r == self.spec_grid_position(),
    ;
}

/// A position together with the data of the tile at that position.
pub struct Tile<D: Dimensionality, Data: TileData> {
    pub position: D::Pos,
    pub data: Data,
}

/// A position together with a reference to the data of the tile at that
/// position.
pub struct TileRef<'a, D: Dimensionality, Data: TileData> {
    pub position: D::Pos,
    pub data: &'a Data,
}

/// A position together with a mutable reference to the data of the tile at
/// that position.
pub struct TileMut<'a, D: Dimensionality, Data: TileData> {
    pub position: D::Pos,
    pub data: &'a mut Data,
}

/// Tile of a grid of two dimensions.
pub type Tile2D<Data> = Tile<TwoDim, Data>;

/// Reference to a tile of a grid of two dimensions.
pub type TileRef2D<'a, Data> = TileRef<'a, TwoDim, Data>;

/// Mutable reference to a tile of a grid of two dimensions.
pub type TileMut2D<'a, Data> = TileMut<'a, TwoDim, Data>;

/// Tile of a grid of three dimensions.
pub type Tile3D<Data> = Tile<ThreeDim, Data>;

/// Reference to a tile of a grid of three dimensions.
pub type TileRef3D<'a, Data> = TileRef<'a, ThreeDim, Data>;

/// Mutable reference to a tile of a grid of three dimensions.
pub type TileMut3D<'a, Data> = TileMut<'a, ThreeDim, Data>;

impl<D: Dimensionality, Data: TileData> Tile<D, Data> {
    /// The tile of the data at the position.
    pub fn new(grid_position: D::Pos, data: Data) -> (r: Self)
        ensures
            r.position == grid_position,
            r.data == data,
    {
        Self { position: grid_position, data }
    }

    /// Consumes the container and hands out the data.
    pub fn into_data(self) -> (r: Data)
        ensures
            r == self.data,
    {
        self.data
    }

    /// The data of the tile.
    pub fn data(&self) -> (r: &Data)
        ensures
            *r == self.data,
    {
        &self.data
    }
}

impl<D: Dimensionality, Data: TileData> TileContainer<D> for Tile<D, Data> {
    open spec fn spec_grid_position(&self) -> D::Pos {
        self.position
    }

    fn grid_position(&self) -> (r: D::Pos) {
        self.position
    }
}

impl<'a, D: Dimensionality, Data: TileData> TileRef<'a, D, Data> {
    /// The tile of the shared data at the position.
    pub fn new(grid_position: D::Pos, data: &'a Data) -> (r: Self)
        ensures
            r.position == grid_position,
            r.data == data,
    {
        Self { position: grid_position, data }
    }

    /// The data of the tile.
    pub fn data(&self) -> (r: &'a Data)
        ensures
            r == self.data,
    {
        self.data
    }
}

impl<'a, D: Dimensionality, Data: TileData> TileContainer<D> for TileRef<'a, D, Data> {
    open spec fn spec_grid_position(&self) -> D::Pos {
        self.position
    }

    fn grid_position(&self) -> (r: D::Pos) {
        self.position
    }
}

impl<'a, D: Dimensionality, Data: TileData> TileMut<'a, D, Data> {
    /// The tile of the data at the position, open to changes.
    pub fn new(grid_position: D::Pos, data: &'a mut Data) -> (r: Self)
        ensures
            r.position == grid_position,
            *r.data == *old(data),
            *final(data) == *final(r.data),
    {
        Self { position: grid_position, data }
    }

    /// Mutable access to the data of the tile.
    pub fn data(&mut self) -> (r: &mut Data)
        ensures
            *r == *old(self).data,
            *final(self).data == *final(r),
            final(self).position == old(self).position,
    {
        &mut *self.data
    }
}

impl<'a, D: Dimensionality, Data: TileData> TileContainer<D> for TileMut<'a, D, Data> {
    open spec fn spec_grid_position(&self) -> D::Pos {
        self.position
    }

    fn grid_position(&self) -> (r: D::Pos) {
        self.position
    }
}

} // verus!
