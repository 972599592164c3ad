//! Directions in three dimensions.

use vstd::prelude::*;
use crate::direction::Direction;
use crate::direction::DirectionTable;
use crate::position::GridPosition;
use crate::size::GridSize;
use crate::three_d::position::GridPosition3D;
use crate::three_d::size::GridSize3D;

verus! {

/// The six directions of a grid of three dimensions.
///
/// `Up`, `Left` and `Higher` point toward lower coordinates, `Down`, `Right`
/// and `Lower` toward higher ones.
#[derive(Debug, Clone, Copy, PartialEq, Eq, Structural, Hash)]
pub enum Direction3D {
    Up,
    Down,
    Left,
    Right,
    Higher,
    Lower,
}

impl Direction for Direction3D {
    type Pos = GridPosition3D;

    type Size = GridSize3D;

    open spec fn spec_count() -> nat {
        6
    }

    open spec fn spec_idx(&self) -> nat {
        match self {
            Direction3D::Up => 0,
            Direction3D::Down => 1,
            Direction3D::Left => 2,
            Direction3D::Right => 3,
            Direction3D::Higher => 4,
            Direction3D::Lower => 5,
        }
    }

    open spec fn spec_from_idx(idx: nat) -> Self {
        if idx == 0 {
            Direction3D::Up
        } else if idx == 1 {
            Direction3D::Down
        } else if idx == 2 {
            Direction3D::Left
        } else if idx == 3 {
            Direction3D::Right
        } else if idx == 4 {
            Direction3D::Higher
        } else {
            Direction3D::Lower
        }
    }

    open spec fn spec_opposite(&self) -> Self {
        match self {
            Direction3D::Up => Direction3D::Down,
            Direction3D::Down => Direction3D::Up,
            Direction3D::Left => Direction3D::Right,
            Direction3D::Right => Direction3D::Left,
            Direction3D::Higher => Direction3D::Lower,
            Direction3D::Lower => Direction3D::Higher,
        }
    }

    open spec fn spec_axis(&self) -> nat {
        match self {
            Direction3D::Up => 1,
            Direction3D::Down => 1,
            Direction3D::Left => 0,
            Direction3D::Right => 0,
            Direction3D::Higher => 2,
            Direction3D::Lower => 2,
        }
    }

    open spec fn spec_increasing(&self) -> bool {
        match self {
            Direction3D::Up => false,
            Direction3D::Down => true,
            Direction3D::Left => false,
            Direction3D::Right => true,
            Direction3D::Higher => false,
            Direction3D::Lower => true,
        }
    }

    open spec fn spec_march_step(&self, from: &GridPosition3D, size: &GridSize3D) -> Option<
        GridPosition3D,
    > {
        match self {
            Direction3D::Up => if from.y == 0 {
                None
            } else {
                Some(GridPosition3D { x: from.x, y: (from.y - 1) as u32, z: from.z })
            },
            Direction3D::Down => if from.y + 1 >= size.y {
                None
            } else {
                Some(GridPosition3D { x: from.x, y: (from.y + 1) as u32, z: from.z })
            },
            Direction3D::Left => if from.x == 0 {
                None
            } else {
                Some(GridPosition3D { x: (from.x - 1) as u32, y: from.y, z: from.z })
            },
            Direction3D::Right => if from.x + 1 >= size.x {
                None
            } else {
                Some(GridPosition3D { x: (from.x + 1) as u32, y: from.y, z: from.z })
            },
            Direction3D::Higher => if from.z == 0 {
                None
            } else {
                Some(GridPosition3D { x: from.x, y: from.y, z: (from.z - 1) as u32 })
            },
            Direction3D::Lower => if from.z + 1 >= size.z {
                None
            } else {
                Some(GridPosition3D { x: from.x, y: from.y, z: (from.z + 1) as u32 })
            },
        }
    }

    proof fn lemma_idx(&self) {
    }

    proof fn lemma_from_idx(idx: nat) {
    }

    proof fn lemma_opposite(&self) {
    }

    proof fn lemma_same_axis(a: Self, b: Self) {
    }

    proof fn lemma_march_step(&self, from: &GridPosition3D, size: &GridSize3D) {
        match self.spec_march_step(from, size) {
            Some(to) => {
                let axis = self.spec_axis() as int;
                let moved: u32 = if self.spec_increasing() {
                    (from.spec_coords()[axis] + 1) as u32
                } else {
                    (from.spec_coords()[axis] - 1) as u32
                };
                assert(to.spec_coords() =~= from.spec_coords().update(axis, moved));
            },
            None => {},
        }
    }

    proof fn lemma_march_step_back(&self, from: &GridPosition3D, size: &GridSize3D) {
    }

    fn count() -> (r: usize) {
        6
    }

    fn all() -> (r: Vec<Self>) {
        let mut out: Vec<Self> = Vec::new();
        out.push(Direction3D::Up);
        out.push(Direction3D::Down);
        out.push(Direction3D::Left);
        out.push(Direction3D::Right);
        out.push(Direction3D::Higher);
        out.push(Direction3D::Lower);
        out
    }

    fn primary() -> (r: Vec<Self>) {
        let mut out: Vec<Self> = Vec::new();
        out.push(Direction3D::Left);
        out.push(Direction3D::Up);
        out.push(Direction3D::Higher);
        out
    }

    fn from_idx(idx: usize) -> (r: Self) {
        if idx == 0 {
            Direction3D::Up
        } else if idx == 1 {
            Direction3D::Down
        } else if idx == 2 {
            Direction3D::Left
        } else if idx == 3 {
            Direction3D::Right
        } else if idx == 4 {
            Direction3D::Higher
        } else {
            Direction3D::Lower
        }
    }

    fn march_step(&self, from: &GridPosition3D, size: &GridSize3D) -> (r: Option<GridPosition3D>) {
        match self {
            Direction3D::Up => {
                if from.y == 0 {
                    None
                } else {
                    Some(GridPosition3D { x: from.x, y: from.y - 1, z: from.z })
                }
            },
            Direction3D::Down => {
                if size.y == 0 || from.y >= size.y - 1 {
                    None
                } else {
                    Some(GridPosition3D { x: from.x, y: from.y + 1, z: from.z })
                }
            },
            Direction3D::Left => {
                if from.x == 0 {
                    None
                } else {
                    Some(GridPosition3D { x: from.x - 1, y: from.y, z: from.z })
                }
            },
            Direction3D::Right => {
                if size.x == 0 || from.x >= size.x - 1 {
                    None
                } else {
                    Some(GridPosition3D { x: from.x + 1, y: from.y, z: from.z })
                }
            },
            Direction3D::Higher => {
                if from.z == 0 {
                    None
                } else {
                    Some(GridPosition3D { x: from.x, y: from.y, z: from.z - 1 })
                }
            },
            Direction3D::Lower => {
                if size.z == 0 || from.z >= size.z - 1 {
                    None
                } else {
                    Some(GridPosition3D { x: from.x, y: from.y, z: from.z + 1 })
                }
            },
        }
    }

    fn opposite(&self) -> (r: Self) {
        match self {
            Direction3D::Up => Direction3D::Down,
            Direction3D::Down => Direction3D::Up,
            Direction3D::Left => Direction3D::Right,
            Direction3D::Right => Direction3D::Left,
            Direction3D::Higher => Direction3D::Lower,
            Direction3D::Lower => Direction3D::Higher,
        }
    }

    fn as_idx(&self) -> (r: usize) {
        match self {
            Direction3D::Up => 0,
            Direction3D::Down => 1,
            Direction3D::Left => 2,
            Direction3D::Right => 3,
            Direction3D::Higher => 4,
            Direction3D::Lower => 5,
        }
    }
}

/// Table of one value for each of the six directions.
#[derive(Debug, Clone)]
pub struct DirectionTable3D<T> {
    pub table: [T; 6],
}

impl<T> DirectionTable3D<T> {
    /// Creates the table from its values, in the order of the directions.
    pub fn new(table: [T; 6]) -> (r: Self)
        ensures
            r.table == table,
    {
        Self { table }
    }

    /// Creates the table from its values, in the order of the directions.
    pub fn new_array(values: [T; 6]) -> (r: Self)
        ensures
            r.table == values,
    {
        Self { table: values }
    }

    /// The values of the table, in the order of the directions.
    pub fn inner(&self) -> (r: &[T; 6])
        ensures
            *r == self.table,
    {
        &self.table
    }
}

impl<T> DirectionTable<T> for DirectionTable3D<T> {
    type Dir = Direction3D;

    open spec fn spec_values(&self) -> Seq<T> {
        self.table@
    }

    proof fn lemma_len(&self) {
    }

    fn from_slice(slice: &[T]) -> (r: Self) where T: Copy {
        let r = Self { table: [slice[0], slice[1], slice[2], slice[3], slice[4], slice[5]] };
        assert(r.spec_values() =~= slice@);
        r
    }

    fn get(&self, direction: Direction3D) -> (r: &T) {
        &self.table[direction.as_idx()]
    }

    fn set(&mut self, direction: Direction3D, value: T) {
        let idx: usize = direction.as_idx();
        self.table[idx] = value;
    }
}

impl<T: Default> Default for DirectionTable3D<T> {
    fn default() -> (r: Self) {
        Self { table: [T::default(), T::default(), T::default(), T::default(), T::default(), T::default()] }
    }
}

impl<T> core::ops::Index<Direction3D> for DirectionTable3D<T> {
    type Output = T;

    fn index(&self, index: Direction3D) -> (r: &T)
        ensures
            *r == self.table@[index.spec_idx() as int],
    {
        &self.table[index.as_idx()]
    }
}

impl<T> vstd::std_specs::core::IndexSpecImpl<Direction3D> for DirectionTable3D<T> {
    open spec fn index_req(&self, index: &Direction3D) -> bool {
        true
    }
}

impl<T> core::ops::IndexMut<Direction3D> for DirectionTable3D<T> {
    fn index_mut(&mut self, index: Direction3D) -> (r: &mut T)
        ensures
            *r == old(self).table@[index.spec_idx() as int],
            final(self).table@ == old(self).table@.update(index.spec_idx() as int, *final(r)),
    {
        &mut self.table[index.as_idx()]
    }
}

} // verus!
