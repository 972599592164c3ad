//! Directions in two dimensions.

use vstd::prelude::*;
use crate::direction::Direction;
use crate::direction::DirectionTable;
use crate::position::GridPosition;
use crate::size::GridSize;
use crate::two_d::position::GridPosition2D;
use crate::two_d::size::GridSize2D;

verus! {

/// The four directions of a grid of two dimensions.
///
/// `Up` and `Left` point toward lower coordinates, `Down` and `Right` toward
/// higher ones.
#[derive(Debug, Clone, Copy, PartialEq, Eq, Structural, Hash)]
pub enum Direction2D {
    Up,
    Down,
    Left,
    Right,
}

impl Direction for Direction2D {
    type Pos = GridPosition2D;

    type Size = GridSize2D;

    open spec fn spec_count() -> nat {
        4
    }

    open spec fn spec_idx(&self) -> nat {
        match self {
            Direction2D::Up => 0,
            Direction2D::Down => 1,
            Direction2D::Left => 2,
            Direction2D::Right => 3,
        }
    }

    open spec fn spec_from_idx(idx: nat) -> Self {
        if idx == 0 {
            Direction2D::Up
        } else if idx == 1 {
            Direction2D::Down
        } else if idx == 2 {
            Direction2D::Left
        } else {
            Direction2D::Right
        }
    }

    open spec fn spec_opposite(&self) -> Self {
        match self {
            Direction2D::Up => Direction2D::Down,
            Direction2D::Down => Direction2D::Up,
            Direction2D::Left => Direction2D::Right,
            Direction2D::Right => Direction2D::Left,
        }
    }

    open spec fn spec_axis(&self) -> nat {
        match self {
            Direction2D::Up => 1,
            Direction2D::Down => 1,
            Direction2D::Left => 0,
            Direction2D::Right => 0,
        }
    }

    open spec fn spec_increasing(&self) -> bool {
        match self {
            Direction2D::Up => false,
            Direction2D::Down => true,
            Direction2D::Left => false,
            Direction2D::Right => true,
        }
    }

    open spec fn spec_march_step(&self, from: &GridPosition2D, size: &GridSize2D) -> Option<
        GridPosition2D,
    > {
        match self {
            Direction2D::Up => if from.y == 0 {
                None
            } else {
                Some(GridPosition2D { x: from.x, y: (from.y - 1) as u32 })
            },
            Direction2D::Down => if from.y + 1 >= size.y {
                None
            } else {
                Some(GridPosition2D { x: from.x, y: (from.y + 1) as u32 })
            },
            Direction2D::Left => if from.x == 0 {
                None
            } else {
                Some(GridPosition2D { x: (from.x - 1) as u32, y: from.y })
            },
            Direction2D::Right => if from.x + 1 >= size.x {
                None
            } else {
                Some(GridPosition2D { x: (from.x + 1) as u32, y: from.y })
            },
        }
    }

    proof fn lemma_idx(&self) {
    }

    proof fn lemma_from_idx(idx: nat) {
    }

    proof fn lemma_opposite(&self) {
    }

    proof fn lemma_same_axis(a: Self, b: Self) {
    }

    proof fn lemma_march_step(&self, from: &GridPosition2D, size: &GridSize2D) {
        match self.spec_march_step(from, size) {
            Some(to) => {
                let axis = self.spec_axis() as int;
                let moved: u32 = if self.spec_increasing() {
                    (from.spec_coords()[axis] + 1) as u32
                } else {
                    (from.spec_coords()[axis] - 1) as u32
                };
                assert(to.spec_coords() =~= from.spec_coords().update(axis, moved));
            },
            None => {},
        }
    }

    proof fn lemma_march_step_back(&self, from: &GridPosition2D, size: &GridSize2D) {
    }

    fn count() -> (r: usize) {
        4
    }

    fn all() -> (r: Vec<Self>) {
        let mut out: Vec<Self> = Vec::new();
        out.push(Direction2D::Up);
        out.push(Direction2D::Down);
        out.push(Direction2D::Left);
        out.push(Direction2D::Right);
        out
    }

    fn primary() -> (r: Vec<Self>) {
        let mut out: Vec<Self> = Vec::new();
        out.push(Direction2D::Left);
        out.push(Direction2D::Up);
        out
    }

    fn from_idx(idx: usize) -> (r: Self) {
        if idx == 0 {
            Direction2D::Up
        } else if idx == 1 {
            Direction2D::Down
        } else if idx == 2 {
            Direction2D::Left
        } else {
            Direction2D::Right
        }
    }

    fn march_step(&self, from: &GridPosition2D, size: &GridSize2D) -> (r: Option<GridPosition2D>) {
        match self {
            Direction2D::Up => {
                if from.y == 0 {
                    None
                } else {
                    Some(GridPosition2D { x: from.x, y: from.y - 1 })
                }
            },
            Direction2D::Down => {
                if size.y == 0 || from.y >= size.y - 1 {
                    None
                } else {
                    Some(GridPosition2D { x: from.x, y: from.y + 1 })
                }
            },
            Direction2D::Left => {
                if from.x == 0 {
                    None
                } else {
                    Some(GridPosition2D { x: from.x - 1, y: from.y })
                }
            },
            Direction2D::Right => {
                if size.x == 0 || from.x >= size.x - 1 {
                    None
                } else {
                    Some(GridPosition2D { x: from.x + 1, y: from.y })
                }
            },
        }
    }

    fn opposite(&self) -> (r: Self) {
        match self {
            Direction2D::Up => Direction2D::Down,
            Direction2D::Down => Direction2D::Up,
            Direction2D::Left => Direction2D::Right,
            Direction2D::Right => Direction2D::Left,
        }
    }

    fn as_idx(&self) -> (r: usize) {
        match self {
            Direction2D::Up => 0,
            Direction2D::Down => 1,
            Direction2D::Left => 2,
            Direction2D::Right => 3,
        }
    }
}

/// Table of one value for each of the four directions.
#[derive(Debug, Clone)]
pub struct DirectionTable2D<T> {
    pub table: [T; 4],
}

impl<T> DirectionTable2D<T> {
    /// Creates the table from its values, in the order of the directions.
    pub fn new(table: [T; 4]) -> (r: Self)
        ensures
            r.table == table,
    {
        Self { table }
    }

    /// Creates the table from its values, in the order of the directions.
    pub fn new_array(values: [T; 4]) -> (r: Self)
        ensures
            r.table == values,
    {
        Self { table: values }
    }

    /// The values of the table, in the order of the directions.
    pub fn inner(&self) -> (r: &[T; 4])
        ensures
            *r == self.table,
    {
        &self.table
    }
}

impl<T> DirectionTable<T> for DirectionTable2D<T> {
    type Dir = Direction2D;

    open spec fn spec_values(&self) -> Seq<T> {
        self.table@
    }

    proof fn lemma_len(&self) {
    }

    fn from_slice(slice: &[T]) -> (r: Self) where T: Copy {
        let r = Self { table: [slice[0], slice[1], slice[2], slice[3]] };
        assert(r.spec_values() =~= slice@);
        r
    }

    fn get(&self, direction: Direction2D) -> (r: &T) {
        &self.table[direction.as_idx()]
    }

    fn set(&mut self, direction: Direction2D, value: T) {
        let idx: usize = direction.as_idx();
        self.table[idx] = value;
    }
}

impl<T: Default> Default for DirectionTable2D<T> {
    fn default() -> (r: Self) {
        Self { table: [T::default(), T::default(), T::default(), T::default()] }
    }
}

impl<T> core::ops::Index<Direction2D> for DirectionTable2D<T> {
    type Output = T;

    fn index(&self, index: Direction2D) -> (r: &T)
        ensures
            *r == self.table@[index.spec_idx() as int],
    {
        &self.table[index.as_idx()]
    }
}

impl<T> vstd::std_specs::core::IndexSpecImpl<Direction2D> for DirectionTable2D<T> {
    open spec fn index_req(&self, index: &Direction2D) -> bool {
        true
    }
}

impl<T> core::ops::IndexMut<Direction2D> for DirectionTable2D<T> {
    fn index_mut(&mut self, index: Direction2D) -> (r: &mut T)
        ensures
            *r == old(self).table@[index.spec_idx() as int],
            final(self).table@ == old(self).table@.update(index.spec_idx() as int, *final(r)),
    {
        &mut self.table[index.as_idx()]
    }
}

} // verus!
