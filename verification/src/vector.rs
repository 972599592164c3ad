//! Positions as signed coordinates, for engines that address their tiles by
//! a vector of two signed integers and a layer.
//!
//! A signed coordinate and the unsigned coordinate of a position stand for
//! each other bit by bit: a negative number stands for the unsigned number
//! that lies two to the 32 above it.

use vstd::prelude::*;
use crate::three_d::position::GridPosition3D;
use crate::two_d::position::GridPosition2D;

verus! {

/// Vector of two signed integers.
#[derive(Debug, Clone, Copy, PartialEq, Eq, Structural)]
pub struct Vector2i {
    pub x: i32,
    pub y: i32,
}

/// The unsigned number of the same bits as the signed number.
pub open spec fn spec_to_unsigned(value: i32) -> u32 {
    if value >= 0 {
        value as u32
    } else {
        (value + 0x1_0000_0000) as u32
    }
}

/// The signed number of the same bits as the unsigned number.
pub open spec fn spec_to_signed(value: u32) -> i32 {
    if value <= i32::MAX {
        value as i32
    } else {
        (value - 0x1_0000_0000) as i32
    }
}

/// Turning a number into the other kind and back gives the number.
pub proof fn lemma_signed_round_trip(signed: i32, unsigned: u32)
    ensures
        spec_to_signed(spec_to_unsigned(signed)) == signed,
        spec_to_unsigned(spec_to_signed(unsigned)) == unsigned,
{
}

/// The unsigned number of the same bits as the signed number.
pub fn to_unsigned(value: i32) -> (r: u32)
    ensures
        r == spec_to_unsigned(value),
{
    if value >= 0 {
        value as u32
    } else {
        let wide: i64 = value as i64 + 0x1_0000_0000;
        wide as u32
    }
}

/// The signed number of the same bits as the unsigned number.
pub fn to_signed(value: u32) -> (r: i32)
    ensures
        r == spec_to_signed(value),
{
    if value <= 0x7fff_ffff {
        value as i32
    } else {
        let wide: i64 = value as i64 - 0x1_0000_0000;
        wide as i32
    }
}

impl GridPosition2D {
    /// The position of the coordinates of the vector.
    pub fn from_godot_v2i(coords: Vector2i) -> (r: Self)
        ensures
            r.x == spec_to_unsigned(coords.x),
            r.y == spec_to_unsigned(coords.y),
    {
        GridPosition2D::new(to_unsigned(coords.x), to_unsigned(coords.y))
    }

    /// The coordinates of the position as a vector.
    pub fn get_godot_coords(&self) -> (r: Vector2i)
        ensures
            r.x == spec_to_signed(self.x),
            r.y == spec_to_signed(self.y),
    {
        Vector2i { x: to_signed(self.x), y: to_signed(self.y) }
    }

    /// The layer of the position: a position of two dimensions has none.
    pub fn get_godot_layer(&self) -> (r: Option<i32>)
        ensures
            r is None,
    {
        None
    }
}

impl GridPosition3D {
    /// The position of the coordinates of the vector on the layer.
    pub fn from_godot_v2i_layer(coords: Vector2i, layer: i32) -> (r: Self)
        ensures
            r.x == spec_to_unsigned(coords.x),
            r.y == spec_to_unsigned(coords.y),
            r.z == spec_to_unsigned(layer),
    {
        GridPosition3D::new(to_unsigned(coords.x), to_unsigned(coords.y), to_unsigned(layer))
    }

    /// The first two coordinates of the position as a vector.
    pub fn get_godot_coords(&self) -> (r: Vector2i)
        ensures
            r.x == spec_to_signed(self.x),
            r.y == spec_to_signed(self.y),
    {
        Vector2i { x: to_signed(self.x), y: to_signed(self.y) }
    }

    /// The layer of the position: its third coordinate.
    pub fn get_godot_layer(&self) -> (r: Option<i32>)
        ensures
            r == Some(spec_to_signed(self.z)),
    {
        Some(to_signed(self.z))
    }
}

} // verus!
