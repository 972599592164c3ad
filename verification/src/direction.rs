//! Directions between neighbouring cells.

use vstd::prelude::*;
use crate::position::GridPosition;
use crate::size::GridSize;

verus! {

/// Axis-aligned unit directions of a grid.
///
/// Every axis has two directions, one toward lower coordinates and one toward
/// higher ones; they are opposite to each other. Directions are numbered
/// without gaps from zero.
pub trait Direction: Sized + Copy {
    /// Positions that the directions connect.
    type Pos: GridPosition;

    /// Sizes that bound the steps.
    type Size: GridSize<Pos = Self::Pos>;

    /// Number of directions.
    spec fn spec_count() -> nat;

    /// Index of the direction.
    spec fn spec_idx(&self) -> nat;

    /// Direction that has the given index.
    spec fn spec_from_idx(idx: nat) -> Self;

    /// Direction that points the other way on the same axis.
    spec fn spec_opposite(&self) -> Self;

    /// Index of the axis on which the direction lies.
    spec fn spec_axis(&self) -> nat;

    /// Whether the direction points toward higher coordinates.
    spec fn spec_increasing(&self) -> bool;

    /// Position one step away in this direction, or `None` where that step
    /// would leave the bounds of `size`.
    spec fn spec_march_step(&self, from: &Self::Pos, size: &Self::Size) -> Option<Self::Pos>;

    /// Indices and directions correspond one to one.
    proof fn lemma_idx(&self)
        ensures
            self.spec_idx() < Self::spec_count(),
            Self::spec_from_idx(self.spec_idx()) == *self,
            0 < Self::spec_count() <= 16,
    ;

    /// Every index below the count is the index of its direction.
    proof fn lemma_from_idx(idx: nat)
        requires
            idx < Self::spec_count(),
        ensures
            Self::spec_from_idx(idx).spec_idx() == idx,
    ;

    /// The opposite of the opposite is the direction itself; a direction and
    /// its opposite share their axis and point in different ways along it.
    proof fn lemma_opposite(&self)
        ensures
            self.spec_opposite().spec_opposite() == *self,
            self.spec_opposite() != *self,
            self.spec_opposite().spec_axis() == self.spec_axis(),
            self.spec_opposite().spec_increasing() != self.spec_increasing(),
            self.spec_axis() < Self::Pos::spec_dims(),
    ;

    /// There is one direction only on each axis for each of the two ways
    /// along it.
    proof fn lemma_same_axis(a: Self, b: Self)
        requires
            a.spec_axis() == b.spec_axis(),
            a.spec_increasing() == b.spec_increasing(),
        ensures
            a == b,
    ;

    /// A step changes the coordinate on the axis of the direction by one and
    /// leaves the others; it is refused exactly where that coordinate would
    /// fall below zero or reach the bound.
    proof fn lemma_march_step(&self, from: &Self::Pos, size: &Self::Size)
        ensures
            self.spec_march_step(from, size) is None <==> if self.spec_increasing() {
                from.spec_coords()[self.spec_axis() as int] + 1 >= size.spec_bounds()[self.spec_axis() as int]
            } else {
                from.spec_coords()[self.spec_axis() as int] == 0
            },
            self.spec_march_step(from, size) matches Some(to) ==> to.spec_coords()
                == from.spec_coords().update(
                self.spec_axis() as int,
                if self.spec_increasing() {
                    (from.spec_coords()[self.spec_axis() as int] + 1) as u32
                } else {
                    (from.spec_coords()[self.spec_axis() as int] - 1) as u32
                },
            ),
    ;

    /// A step from a valid position ends in another valid position, from
    /// which the opposite direction leads back.
    proof fn lemma_march_step_back(&self, from: &Self::Pos, size: &Self::Size)
        requires
            size.spec_valid(from),
            self.spec_march_step(from, size) is Some,
        ensures
            size.spec_valid(&self.spec_march_step(from, size)->0),
            self.spec_march_step(from, size)->0 != *from,
            self.spec_opposite().spec_march_step(&self.spec_march_step(from, size)->0, size)
                == Some(*from),
    ;

    /// Number of directions.
    fn count() -> (r: usize)
        ensures
            r == Self::spec_count(),
    ;

    /// All directions, each at its index.
    fn all() -> (r: Vec<Self>)
        ensures
            r@.len() == Self::spec_count(),
            forall|i: int| 0 <= i < r@.len() ==> (#[trigger] r@[i]).spec_idx() == i,
    ;

    /// One direction per axis: the one that points toward lower coordinates.
    fn primary() -> (r: Vec<Self>)
        ensures
            r@.len() == Self::Pos::spec_dims(),
            forall|i: int| 0 <= i < r@.len() ==> !(#[trigger] r@[i]).spec_increasing(),
            forall|i: int, j: int|
                0 <= i < j < r@.len() ==> (#[trigger] r@[i]).spec_axis() != (
                #[trigger] r@[j]).spec_axis(),
    ;

    /// Direction that has the given index.
    fn from_idx(idx: usize) -> (r: Self)
        requires
            idx < Self::spec_count(),
        ensures
            r == Self::spec_from_idx(idx as nat),
    ;

    /// Marches one step in the direction, staying within the bounds of `size`.
    fn march_step(&self, from: &Self::Pos, size: &Self::Size) -> (r: Option<Self::Pos>)
        ensures
            r == self.spec_march_step(from, size),
    ;

    /// The opposite direction.
    fn opposite(&self) -> (r: Self)
        ensures
            r == self.spec_opposite(),
    ;

    /// Index of the direction.
    fn as_idx(&self) -> (r: usize)
        ensures
            r == self.spec_idx(),
    ;
}

/// Two directions that lead from one position to the same neighbour are the
/// same direction.
pub proof fn lemma_march_step_injective<Dir: Direction>(
    a: Dir,
    b: Dir,
    from: &Dir::Pos,
    size: &Dir::Size,
)
    requires
        a.spec_march_step(from, size) is Some,
        a.spec_march_step(from, size) == b.spec_march_step(from, size),
    ensures
        a == b,
{
    a.lemma_march_step(from, size);
    b.lemma_march_step(from, size);
    a.lemma_opposite();
    b.lemma_opposite();
    from.lemma_coords_len();
    let to = a.spec_march_step(from, size)->0;
    let coords = from.spec_coords();
    let axis_a = a.spec_axis() as int;
    let axis_b = b.spec_axis() as int;
    let moved_a: u32 = if a.spec_increasing() {
        (coords[axis_a] + 1) as u32
    } else {
        (coords[axis_a] - 1) as u32
    };
    let moved_b: u32 = if b.spec_increasing() {
        (coords[axis_b] + 1) as u32
    } else {
        (coords[axis_b] - 1) as u32
    };
    size.lemma_valid(from);
    assert(to.spec_coords() == coords.update(axis_a, moved_a));
    assert(to.spec_coords() == coords.update(axis_b, moved_b));
    assert(coords.update(axis_a, moved_a)[axis_a] == moved_a);
    assert(coords.update(axis_b, moved_b)[axis_b] == moved_b);
    if axis_a != axis_b {
        assert(coords.update(axis_b, moved_b)[axis_a] == coords[axis_a]);
    }
    Dir::lemma_same_axis(a, b);
}

/// Table of one value per direction, looked up by the index of a direction.
pub trait DirectionTable<T>: Sized {
    /// Directions that index the table.
    type Dir: Direction;

    /// The values of the table, each at the index of its direction.
    spec fn spec_values(&self) -> Seq<T>;

    /// A table holds exactly one value per direction.
    proof fn lemma_len(&self)
        ensures
            self.spec_values().len() == Self::Dir::spec_count(),
    ;

    /// Creates the table from a slice which holds exactly one value per
    /// direction.
    fn from_slice(slice: &[T]) -> (r: Self) where T: Copy
        requires
            slice@.len() == Self::Dir::spec_count(),
        ensures
            r.spec_values() == slice@,
    ;

    /// The value bound to the direction.
    fn get(&self, direction: Self::Dir) -> (r: &T)
        ensures
            *r == self.spec_values()[direction.spec_idx() as int],
    ;

    /// Binds the value to the direction.
    fn set(&mut self, direction: Self::Dir, value: T)
        ensures
            final(self).spec_values() == old(self).spec_values().update(
                direction.spec_idx() as int,
                value,
            ),
    ;
}

} // verus!
