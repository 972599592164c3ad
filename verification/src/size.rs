//! Sizes of grids.

use vstd::prelude::*;
use crate::position::GridPosition;

verus! {

/// Bounds of a grid, together with the layout of its cells in a flat buffer.
///
/// A size decides which positions are valid, counts them, and maps each valid
/// position to an offset below that count and back. The laws of the trait
/// state that both mappings are inverse to each other.
pub trait GridSize: Sized + Copy {
    /// Positions that this size bounds.
    type Pos: GridPosition;

    /// The bound of every coordinate, in coordinate order.
    spec fn spec_bounds(&self) -> Seq<u32>;

    /// A position is valid if each of its coordinates is below its bound.
    spec fn spec_valid(&self, pos: &Self::Pos) -> bool;

    /// Number of valid positions: the product of the bounds.
    spec fn spec_count(&self) -> nat;

    /// Offset of a position: the sum of its coordinates, each multiplied by
    /// the stride of its axis. The stride of the first axis is one, that of
    /// every other axis is the stride of the axis before it multiplied by the
    /// bound of that axis.
    spec fn spec_offset(&self, pos: &Self::Pos) -> nat;

    /// Position that has the given offset.
    spec fn spec_pos_from_offset(&self, offset: nat) -> Self::Pos;

    /// Validity is bound by bound.
    proof fn lemma_valid(&self, pos: &Self::Pos)
        ensures
            self.spec_bounds().len() == Self::Pos::spec_dims(),
            self.spec_valid(pos) <==> forall|i: int|
                0 <= i < Self::Pos::spec_dims() ==> #[trigger] pos.spec_coords()[i]
                    < self.spec_bounds()[i],
    ;

    /// The offset of a valid position lies below the count.
    proof fn lemma_offset_in_range(&self, pos: &Self::Pos)
        requires
            self.spec_valid(pos),
        ensures
            self.spec_offset(pos) < self.spec_count(),
    ;

    /// The position of an offset is valid, and has that offset.
    proof fn lemma_offset_of_pos_from_offset(&self, offset: nat)
        requires
            offset < self.spec_count(),
        ensures
            self.spec_valid(&self.spec_pos_from_offset(offset)),
            self.spec_offset(&self.spec_pos_from_offset(offset)) == offset,
    ;

    /// A valid position is the position of its offset.
    proof fn lemma_pos_from_offset_of_offset(&self, pos: &Self::Pos)
        requires
            self.spec_valid(pos),
        ensures
            self.spec_pos_from_offset(self.spec_offset(pos)) == *pos,
    ;

    /// Creates the size from a slice which holds exactly its bounds.
    fn from_slice(slice: &[u32]) -> (r: Self)
        requires
            slice@.len() == Self::Pos::spec_dims(),
        ensures
            r.spec_bounds() == slice@,
    ;

    /// Checks whether the position lies within the bounds.
    fn is_position_valid(&self, position: &Self::Pos) -> (r: bool)
        ensures
            r == self.spec_valid(position),
    ;

    /// Checks whether every bound is at most the matching bound of `other`.
    fn is_contained_within(&self, other: &Self) -> (r: bool)
        ensures
            r <==> forall|i: int|
                0 <= i < Self::Pos::spec_dims() ==> #[trigger] self.spec_bounds()[i]
                    <= other.spec_bounds()[i],
    ;

    /// All valid positions, each once, in lexicographic order of their
    /// coordinates.
    fn get_all_possible_positions(&self) -> (r: Vec<Self::Pos>)
        requires
            self.spec_count() <= usize::MAX,
        ensures
            r@.len() == self.spec_count(),
            forall|p: Self::Pos| r@.contains(p) <==> self.spec_valid(&p),
            forall|i: int, j: int|
                0 <= i < j < r@.len() ==> crate::position::spec_lex_less(
                    (#[trigger] r@[i]).spec_coords(),
                    (#[trigger] r@[j]).spec_coords(),
                ),
    ;

    /// Smallest distance of a valid position to a border of the grid, along
    /// any axis; `None` for a position that is not valid.
    fn distance_from_border(&self, position: &Self::Pos) -> (r: Option<u32>)
        ensures
            r is Some <==> self.spec_valid(position),
            r is Some ==> spec_is_border_distance(
                self.spec_bounds(),
                position.spec_coords(),
                r->0,
            ),
    ;

    /// Smallest distance of a valid position to the center of the grid, along
    /// any axis; `None` for a position that is not valid.
    fn distance_from_center(&self, position: &Self::Pos) -> (r: Option<u32>)
        ensures
            r is Some <==> self.spec_valid(position),
            r is Some ==> spec_is_center_distance(
                self.spec_bounds(),
                position.spec_coords(),
                r->0,
            ),
    ;

    /// The center of the grid: every bound divided by two, rounded down.
    fn center(&self) -> (r: Self::Pos)
        ensures
            r.spec_coords().len() == self.spec_bounds().len(),
            forall|i: int|
                0 <= i < self.spec_bounds().len() ==> #[trigger] r.spec_coords()[i]
                    == self.spec_bounds()[i] / 2,
    ;

    /// Number of cells of a grid of this size.
    fn max_tile_count(&self) -> (r: usize)
        requires
            self.spec_count() <= usize::MAX,
        ensures
            r == self.spec_count(),
    ;

    /// Offset of the position in the flat buffer of a grid of this size.
    fn offset(&self, pos: &Self::Pos) -> (r: usize)
        requires
            self.spec_offset(pos) <= usize::MAX,
        ensures
            r == self.spec_offset(pos),
    ;

    /// Position of the cell that has the given offset.
    fn pos_from_offset(&self, offset: usize) -> (r: Self::Pos)
        requires
            offset < self.spec_count(),
        ensures
            r == self.spec_pos_from_offset(offset as nat),
    ;
}

/// Whether `d` is the smallest distance from the coordinates `p` to a border
/// of the box with the given bounds: the smallest, over all axes, of the
/// coordinate itself and of what is left to the last coordinate of the axis.
pub open spec fn spec_is_border_distance(bounds: Seq<u32>, p: Seq<u32>, d: u32) -> bool {
    &&& forall|i: int|
        0 <= i < bounds.len() ==> d <= #[trigger] p[i] && d <= bounds[i] - p[i] - 1
    &&& exists|i: int| 0 <= i < bounds.len() && (d == #[trigger] p[i] || d == bounds[i] - p[i] - 1)
}

/// Whether `d` is the smallest distance, over all axes, from the coordinates
/// `p` to the center of the box with the given bounds.
pub open spec fn spec_is_center_distance(bounds: Seq<u32>, p: Seq<u32>, d: u32) -> bool {
    &&& forall|i: int|
        0 <= i < bounds.len() ==> d <= crate::position::spec_abs_diff(
            #[trigger] p[i],
            (bounds[i] / 2) as u32,
        )
    &&& exists|i: int|
        0 <= i < bounds.len() && d == crate::position::spec_abs_diff(
            #[trigger] p[i],
            (bounds[i] / 2) as u32,
        )
}

} // verus!
