//! Queue that hands out positions in a fixed order.

use vstd::prelude::*;
use core::cmp::Ordering;
use crate::collapse::table::PerOptionData;
use crate::collapse::tile::CollapsibleTile;
use crate::dimension::Dimensionality;
use crate::map::GridMap;
use crate::position::GridPosition;
use crate::size::GridSize;
use crate::three_d::GridPosition3D;
use crate::three_d::ThreeDim;
use crate::two_d::GridPosition2D;
use crate::two_d::TwoDim;

verus! {

/// A strict total order of the positions of a grid: the order in which a
/// position queue hands its positions out.
pub trait PositionQueueProcession<D: Dimensionality>: Sized {
    /// Whether `a` is handed out before `b`.
    spec fn spec_before(&self, a: D::Pos, b: D::Pos) -> bool;

    /// No position comes before itself, of two different positions one comes
    /// before the other, and a position that comes before a second which
    /// comes before a third comes before the third.
    proof fn lemma_strict_total_order(&self, a: D::Pos, b: D::Pos, c: D::Pos)
        ensures
            !self.spec_before(a, a),
            a != b ==> self.spec_before(a, b) || self.spec_before(b, a),
            !(self.spec_before(a, b) && self.spec_before(b, a)),
            self.spec_before(a, b) && self.spec_before(b, c) ==> self.spec_before(a, c),
    ;

    /// Compares two positions: `Less` where `a` is handed out before `b`,
    /// `Greater` where it is handed out after `b`, `Equal` where both are the
    /// same position.
    fn compare(&self, a: &D::Pos, b: &D::Pos) -> (r: Ordering)
        ensures
            r is Less <==> self.spec_before(*a, *b),
            r is Greater <==> self.spec_before(*b, *a),
    ;
}

/// The corner of a grid of two dimensions at which the collapse starts.
#[derive(Debug, Clone, Copy, PartialEq, Eq, Structural)]
pub enum PositionQueueStartingPoint2D {
    /// Starts where both coordinates are smallest.
    UpLeft,
    /// Starts where `x` is largest and `y` is smallest.
    UpRight,
    /// Starts where `x` is smallest and `y` is largest.
    DownLeft,
    /// Starts where both coordinates are largest.
    DownRight,
}

/// The way in which the collapse proceeds over a grid of two dimensions.
#[derive(Debug, Clone, Copy, PartialEq, Eq, Structural)]
pub enum PositionQueueDirection2D {
    /// Row after row: all positions of one `y` before those of the next.
    Rowwise,
    /// Column after column: all positions of one `x` before those of the
    /// next.
    Columnwise,
}

/// Order of the positions of a grid of two dimensions, from a starting
/// corner, by rows or by columns.
#[derive(Debug, Clone, Copy, PartialEq, Eq, Structural)]
pub struct PositionQueueProcession2D {
    pub starting: PositionQueueStartingPoint2D,
    pub direction: PositionQueueDirection2D,
}

/// Whether the coordinate `a` comes before the coordinate `b` on an axis
/// that is walked toward smaller coordinates, if `descending` holds, or
/// toward larger ones, if it does not.
pub open spec fn spec_coordinate_before(descending: bool, a: u32, b: u32) -> bool {
    if descending {
        a > b
    } else {
        a < b
    }
}

/// Compares two coordinates on an axis that is walked toward smaller
/// coordinates, if `descending` holds, or toward larger ones, if it does not.
pub fn compare_coordinates(descending: bool, a: u32, b: u32) -> (r: Ordering)
    ensures
        r is Less <==> spec_coordinate_before(descending, a, b),
        r is Greater <==> spec_coordinate_before(descending, b, a),
        r is Equal <==> a == b,
{
    if a == b {
        Ordering::Equal
    } else if (a < b) != descending {
        Ordering::Less
    } else {
        Ordering::Greater
    }
}

impl PositionQueueProcession2D {
    /// Whether the walk goes toward smaller `x`.
    pub open spec fn spec_x_descending(&self) -> bool {
        self.starting is UpRight || self.starting is DownRight
    }

    /// Whether the walk goes toward smaller `y`.
    pub open spec fn spec_y_descending(&self) -> bool {
        self.starting is DownLeft || self.starting is DownRight
    }

    /// The order that starts at the corner and proceeds in the direction.
    pub fn cmp_fun(point: PositionQueueStartingPoint2D, direction: PositionQueueDirection2D) -> (r:
        Self)
        ensures
            r.starting == point,
            r.direction == direction,
    {
        Self { starting: point, direction }
    }

    /// The order that starts where both coordinates are smallest and
    /// proceeds row after row.
    pub fn cmp_fun_default() -> (r: Self)
        ensures
            r.starting is UpLeft,
            r.direction is Rowwise,
    {
        Self {
            starting: PositionQueueStartingPoint2D::UpLeft,
            direction: PositionQueueDirection2D::Rowwise,
        }
    }
}

/// The order that starts where both coordinates are smallest and proceeds
/// row after row goes through a row from the smallest `x` to the largest,
/// and through the rows from the smallest `y` to the largest.
pub proof fn lemma_rowwise_from_up_left(a: GridPosition2D, b: GridPosition2D)
    ensures
        (PositionQueueProcession2D {
            starting: PositionQueueStartingPoint2D::UpLeft,
            direction: PositionQueueDirection2D::Rowwise,
        }).spec_before(a, b) <==> (a.y < b.y || (a.y == b.y && a.x < b.x)),
{
}

/// An order that starts at another corner goes through the positions as the
/// order from the smallest coordinates goes through their mirror images: an
/// axis along which the walk descends is turned round.
pub proof fn lemma_corner_mirrors(
    procession: PositionQueueProcession2D,
    a: GridPosition2D,
    b: GridPosition2D,
)
    ensures
        procession.spec_before(a, b) <==> (PositionQueueProcession2D {
            starting: PositionQueueStartingPoint2D::UpLeft,
            direction: procession.direction,
        }).spec_before(
            GridPosition2D {
                x: if procession.spec_x_descending() {
                    b.x
                } else {
                    a.x
                },
                y: if procession.spec_y_descending() {
                    b.y
                } else {
                    a.y
                },
            },
            GridPosition2D {
                x: if procession.spec_x_descending() {
                    a.x
                } else {
                    b.x
                },
                y: if procession.spec_y_descending() {
                    a.y
                } else {
                    b.y
                },
            },
        ),
{
}

impl PositionQueueProcession<TwoDim> for PositionQueueProcession2D {
    open spec fn spec_before(&self, a: GridPosition2D, b: GridPosition2D) -> bool {
        match self.direction {
            PositionQueueDirection2D::Rowwise => spec_coordinate_before(
                self.spec_y_descending(),
                a.y,
                b.y,
            ) || (a.y == b.y && spec_coordinate_before(self.spec_x_descending(), a.x, b.x)),
            PositionQueueDirection2D::Columnwise => spec_coordinate_before(
                self.spec_x_descending(),
                a.x,
                b.x,
            ) || (a.x == b.x && spec_coordinate_before(self.spec_y_descending(), a.y, b.y)),
        }
    }

    proof fn lemma_strict_total_order(&self, a: GridPosition2D, b: GridPosition2D, c: GridPosition2D) {
    }

    fn compare(&self, a: &GridPosition2D, b: &GridPosition2D) -> (r: Ordering) {
        let x_descending: bool = match self.starting {
            PositionQueueStartingPoint2D::UpRight => true,
            PositionQueueStartingPoint2D::DownRight => true,
            _ => false,
        };
        let y_descending: bool = match self.starting {
            PositionQueueStartingPoint2D::DownLeft => true,
            PositionQueueStartingPoint2D::DownRight => true,
            _ => false,
        };
        let by_x: Ordering = compare_coordinates(x_descending, a.x, b.x);
        let by_y: Ordering = compare_coordinates(y_descending, a.y, b.y);
        match self.direction {
            PositionQueueDirection2D::Rowwise => match by_y {
                Ordering::Equal => by_x,
                _ => by_y,
            },
            PositionQueueDirection2D::Columnwise => match by_x {
                Ordering::Equal => by_y,
                _ => by_x,
            },
        }
    }
}

/// The corner of a grid of three dimensions at which the collapse starts.
///
/// `Right` stands for the largest `x`, `Down` for the largest `y` and `Back`
/// for the largest `z`; `Left`, `Up` and `Front` stand for the smallest.
#[derive(Debug, Clone, Copy, PartialEq, Eq, Structural)]
pub enum PositionQueueStartingPoint3D {
    UpLeftFront,
    UpRightFront,
    DownLeftFront,
    DownRightFront,
    UpLeftBack,
    UpRightBack,
    DownLeftBack,
    DownRightBack,
}

/// The way in which the collapse proceeds over a grid of three dimensions.
#[derive(Debug, Clone, Copy, PartialEq, Eq, Structural)]
pub enum PositionQueueDirection3D {
    /// Layer after layer of one `z`, and row after row within a layer.
    Rowwise,
    /// Layer after layer of one `z`, and column after column within a layer.
    Columnwise,
    /// Slice after slice of one `x`, within a slice row after row of one
    /// `y`, and within a row along `z`.
    Heightwise,
}

/// Order of the positions of a grid of three dimensions, from a starting
/// corner, by rows, by columns or by height.
#[derive(Debug, Clone, Copy, PartialEq, Eq, Structural)]
pub struct PositionQueueProcession3D {
    pub starting: PositionQueueStartingPoint3D,
    pub direction: PositionQueueDirection3D,
}

impl PositionQueueProcession3D {
    /// Whether the walk goes toward smaller `x`.
    pub open spec fn spec_x_descending(&self) -> bool {
        self.starting is UpRightFront || self.starting is DownRightFront
            || self.starting is UpRightBack || self.starting is DownRightBack
    }

    /// Whether the walk goes toward smaller `y`.
    pub open spec fn spec_y_descending(&self) -> bool {
        self.starting is DownLeftFront || self.starting is DownRightFront
            || self.starting is DownLeftBack || self.starting is DownRightBack
    }

    /// Whether the walk goes toward smaller `z`.
    pub open spec fn spec_z_descending(&self) -> bool {
        self.starting is UpLeftBack || self.starting is UpRightBack || self.starting is DownLeftBack
            || self.starting is DownRightBack
    }

    /// The order that starts at the corner and proceeds in the direction.
    pub fn cmp_fun(point: PositionQueueStartingPoint3D, direction: PositionQueueDirection3D) -> (r:
        Self)
        ensures
            r.starting == point,
            r.direction == direction,
    {
        Self { starting: point, direction }
    }

    /// The order that starts where all coordinates are smallest and
    /// proceeds row after row.
    pub fn cmp_fun_default() -> (r: Self)
        ensures
            r.starting is UpLeftFront,
            r.direction is Rowwise,
    {
        Self {
            starting: PositionQueueStartingPoint3D::UpLeftFront,
            direction: PositionQueueDirection3D::Rowwise,
        }
    }
}

/// Order by three keys, the first of which counts most.
pub open spec fn spec_before_by_keys(first: (bool, bool), second: (bool, bool), third: bool) -> bool {
    first.0 || (first.1 && (second.0 || (second.1 && third)))
}

/// Combines the comparisons of three keys, the first of which counts most.
pub fn compare_by_keys(first: Ordering, second: Ordering, third: Ordering) -> (r: Ordering)
    ensures
        r == match first {
            Ordering::Equal => match second {
                Ordering::Equal => third,
                _ => second,
            },
            _ => first,
        },
{
    match first {
        Ordering::Equal => match second {
            Ordering::Equal => third,
            _ => second,
        },
        _ => first,
    }
}

impl PositionQueueProcession<ThreeDim> for PositionQueueProcession3D {
    open spec fn spec_before(&self, a: GridPosition3D, b: GridPosition3D) -> bool {
        let by_x = (spec_coordinate_before(self.spec_x_descending(), a.x, b.x), a.x == b.x);
        let by_y = (spec_coordinate_before(self.spec_y_descending(), a.y, b.y), a.y == b.y);
        let by_z = (spec_coordinate_before(self.spec_z_descending(), a.z, b.z), a.z == b.z);
        match self.direction {
            PositionQueueDirection3D::Rowwise => spec_before_by_keys(by_z, by_y, by_x.0),
            PositionQueueDirection3D::Columnwise => spec_before_by_keys(by_z, by_x, by_y.0),
            PositionQueueDirection3D::Heightwise => spec_before_by_keys(by_x, by_y, by_z.0),
        }
    }

    proof fn lemma_strict_total_order(&self, a: GridPosition3D, b: GridPosition3D, c: GridPosition3D) {
    }

    fn compare(&self, a: &GridPosition3D, b: &GridPosition3D) -> (r: Ordering) {
        let x_descending: bool = match self.starting {
            PositionQueueStartingPoint3D::UpRightFront => true,
            PositionQueueStartingPoint3D::DownRightFront => true,
            PositionQueueStartingPoint3D::UpRightBack => true,
            PositionQueueStartingPoint3D::DownRightBack => true,
            _ => false,
        };
        let y_descending: bool = match self.starting {
            PositionQueueStartingPoint3D::DownLeftFront => true,
            PositionQueueStartingPoint3D::DownRightFront => true,
            PositionQueueStartingPoint3D::DownLeftBack => true,
            PositionQueueStartingPoint3D::DownRightBack => true,
            _ => false,
        };
        let z_descending: bool = match self.starting {
            PositionQueueStartingPoint3D::UpLeftBack => true,
            PositionQueueStartingPoint3D::UpRightBack => true,
            PositionQueueStartingPoint3D::DownLeftBack => true,
            PositionQueueStartingPoint3D::DownRightBack => true,
            _ => false,
        };
        let by_x: Ordering = compare_coordinates(x_descending, a.x, b.x);
        let by_y: Ordering = compare_coordinates(y_descending, a.y, b.y);
        let by_z: Ordering = compare_coordinates(z_descending, a.z, b.z);
        match self.direction {
            PositionQueueDirection3D::Rowwise => compare_by_keys(by_z, by_y, by_x),
            PositionQueueDirection3D::Columnwise => compare_by_keys(by_z, by_x, by_y),
            PositionQueueDirection3D::Heightwise => compare_by_keys(by_x, by_y, by_z),
        }
    }
}

/// Sorts the positions so that each comes after all those that follow it in
/// the vector: the position that the order puts first ends up last.
///
/// Calls `sort_by` of the standard library with the comparison of the order,
/// its arguments exchanged. `sort_by` rearranges the elements of the vector
/// so that no element compares as greater than an element behind it; it
/// neither adds nor drops an element.
#[verifier::external_body]
pub(crate) fn sort_descending<D: Dimensionality, P: PositionQueueProcession<D>>(
    positions: &mut Vec<D::Pos>,
    procession: &P,
)
    ensures
        final(positions)@.to_multiset() == old(positions)@.to_multiset(),
        forall|i: int, j: int|
            0 <= i < j < final(positions)@.len() ==> !procession.spec_before(
                final(positions)@[i],
                final(positions)@[j],
            ),
{
    positions.sort_by(|a, b| procession.compare(b, a));
}

/// Queue that hands the positions out in the order of a procession.
pub struct PositionQueue<D: Dimensionality, P: PositionQueueProcession<D>> {
    pub procession: P,
    pub positions: Vec<D::Pos>,
    pub changed: bool,
}

impl Default for PositionQueue<TwoDim, PositionQueueProcession2D> {
    /// An empty queue in the order that starts where both coordinates are
    /// smallest and proceeds row after row.
    fn default() -> (r: Self)
        ensures
            r.wf(),
            r.procession.starting is UpLeft,
            r.procession.direction is Rowwise,
            r.positions@.len() == 0,
    {
        PositionQueue::new(PositionQueueProcession2D::cmp_fun_default())
    }
}

impl Default for PositionQueue<ThreeDim, PositionQueueProcession3D> {
    /// An empty queue in the order that starts where all coordinates are
    /// smallest and proceeds row after row, layer after layer.
    fn default() -> (r: Self)
        ensures
            r.wf(),
            r.procession.starting is UpLeftFront,
            r.procession.direction is Rowwise,
            r.positions@.len() == 0,
    {
        PositionQueue::new(PositionQueueProcession3D::cmp_fun_default())
    }
}

impl<D: Dimensionality, P: PositionQueueProcession<D>> PositionQueue<D, P> {
    /// No position is held twice; and unless the queue has changed since it
    /// was sorted, every position comes after all those that follow it in
    /// the vector.
    pub open spec fn wf(&self) -> bool {
        &&& self.positions@.no_duplicates()
        &&& !self.changed ==> forall|i: int, j: int|
            0 <= i < j < self.positions@.len() ==> !self.procession.spec_before(
                self.positions@[i],
                self.positions@[j],
            )
    }

    /// Whether the queue holds the position.
    pub open spec fn spec_contains(&self, pos: D::Pos) -> bool {
        self.positions@.contains(pos)
    }

    /// Creates an empty queue that hands positions out in the given order.
    pub fn new(procession: P) -> (r: Self)
        ensures
            r.wf(),
            r.procession == procession,
            r.positions@.len() == 0,
    {
        Self { procession, positions: Vec::new(), changed: false }
    }

    /// Number of positions in the queue.
    pub fn len(&self) -> (r: usize)
        ensures
            r == self.positions@.len(),
    {
        self.positions.len()
    }

    /// Whether the queue holds no position.
    pub fn is_empty(&self) -> (r: bool)
        ensures
            r == (self.positions@.len() == 0),
    {
        self.positions.len() == 0
    }

    /// Sorts the positions so that the first in order comes last.
    pub fn sort_elements(&mut self)
        requires
            old(self).wf(),
        ensures
            final(self).wf(),
            !final(self).changed,
            final(self).procession == old(self).procession,
            final(self).positions@.len() == old(self).positions@.len(),
            forall|p: D::Pos| final(self).spec_contains(p) <==> old(self).spec_contains(p),
    {
        let ghost before = self.positions@;
        sort_descending::<D, P>(&mut self.positions, &self.procession);
        self.changed = false;
        proof {
            let after = self.positions@;
            before.to_multiset_ensures();
            after.to_multiset_ensures();
            before.lemma_multiset_has_no_duplicates();
            after.lemma_multiset_has_no_duplicates_conv();
            assert forall|p: D::Pos| after.contains(p) <==> before.contains(p) by {
                assert(after.contains(p) <==> after.to_multiset().count(p) > 0);
                assert(before.contains(p) <==> before.to_multiset().count(p) > 0);
            }
        }
    }

    /// Adds the position to the queue, unless the queue holds it already.
    pub fn update_queue(&mut self, pos: D::Pos)
        requires
            old(self).wf(),
        ensures
            final(self).wf(),
            final(self).procession == old(self).procession,
            forall|p: D::Pos| final(self).spec_contains(p) <==> (p == pos || old(self).spec_contains(p)),
            final(self).positions@.len() == old(self).positions@.len() + if old(self).spec_contains(
                pos,
            ) {
                0int
            } else {
                1int
            },
    {
        let mut found: bool = false;
        let mut i: usize = 0;
        while i < self.positions.len()
            invariant
                *self == *old(self),
                0 <= i <= self.positions@.len(),
                found <==> exists|k: int| 0 <= k < i && self.positions@[k] == pos,
            decreases self.positions@.len() - i,
        {
            if self.positions[i].same(&pos) {
                found = true;
            }
            i = i + 1;
        }
        let ghost before = self.positions@;
        proof {
            if found {
                let k = choose|k: int| 0 <= k < before.len() && before[k] == pos;
                assert(before[k] == pos);
                assert(before.contains(pos));
            } else {
                if before.contains(pos) {
                    let k = choose|k: int| 0 <= k < before.len() && before[k] == pos;
                    assert(false);
                }
            }
        }
        if !found {
            self.positions.push(pos);
        }
        self.changed = true;
        proof {
            let after = self.positions@;
            assert forall|p: D::Pos| after.contains(p) <==> (p == pos || before.contains(p)) by {
                if found {
                    assert(after == before);
                } else {
                    assert(after == before.push(pos));
                    if before.contains(p) {
                        let k = choose|k: int| 0 <= k < before.len() && before[k] == p;
                        assert(after[k] == p);
                    }
                    if p == pos {
                        assert(after[before.len() as int] == p);
                    }
                    if after.contains(p) && p != pos {
                        let k = choose|k: int| 0 <= k < after.len() && after[k] == p;
                        assert(before[k] == p);
                    }
                }
            }
        }
    }

    /// Adds the positions of all the cells to the queue.
    pub fn initialize_queue(&mut self, tiles: &[(D::Pos, CollapsibleTile<D>)])
        requires
            old(self).wf(),
        ensures
            final(self).wf(),
            final(self).procession == old(self).procession,
            forall|p: D::Pos|
                final(self).spec_contains(p) <==> (old(self).spec_contains(p) || exists|k: int|
                    0 <= k < tiles@.len() && (#[trigger] tiles@[k]).0 == p),
    {
        let mut i: usize = 0;
        while i < tiles.len()
            invariant
                self.wf(),
                self.procession == old(self).procession,
                0 <= i <= tiles@.len(),
                forall|p: D::Pos|
                    self.spec_contains(p) <==> (old(self).spec_contains(p) || exists|k: int|
                        0 <= k < i && (#[trigger] tiles@[k]).0 == p),
            decreases tiles@.len() - i,
        {
            let ghost before = *self;
            self.update_queue(tiles[i].0);
            proof {
                assert forall|p: D::Pos|
                    self.spec_contains(p) <==> (old(self).spec_contains(p) || exists|k: int|
                        0 <= k < i + 1 && (#[trigger] tiles@[k]).0 == p) by {
                    if p == tiles@[i as int].0 {
                        assert(tiles@[i as int].0 == p);
                    }
                    if exists|k: int| 0 <= k < i + 1 && (#[trigger] tiles@[k]).0 == p {
                        let k = choose|k: int| 0 <= k < i + 1 && (#[trigger] tiles@[k]).0 == p;
                        if k < i {
                            assert(before.spec_contains(p));
                        }
                    }
                    if before.spec_contains(p) && !old(self).spec_contains(p) {
                        let k = choose|k: int| 0 <= k < i && (#[trigger] tiles@[k]).0 == p;
                        assert(tiles@[k].0 == p);
                    }
                }
            }
            i = i + 1;
        }
    }

    /// Takes the position that comes first in the order out of the queue.
    pub fn get_next_position(&mut self) -> (r: Option<D::Pos>)
        requires
            old(self).wf(),
        ensures
            final(self).wf(),
            final(self).procession == old(self).procession,
            r is None <==> old(self).positions@.len() == 0,
            r is None ==> final(self).positions@.len() == 0,
            r is Some ==> {
                &&& old(self).spec_contains(r->0)
                &&& !final(self).spec_contains(r->0)
                &&& final(self).positions@.len() == old(self).positions@.len() - 1
                &&& forall|p: D::Pos| p != r->0 ==> (final(self).spec_contains(p) <==> old(self).spec_contains(p))
                &&& forall|p: D::Pos| final(self).spec_contains(p) ==> old(self).procession.spec_before(r->0, p)
            },
    {
        if self.changed {
            self.sort_elements();
        }
        let ghost sorted = self.positions@;
        let r: Option<D::Pos> = self.positions.pop();
        proof {
            match r {
                Some(first) => {
                    let rest = self.positions@;
                    let last = sorted.len() - 1;
                    assert(sorted[last] == first);
                    assert(sorted.contains(first));
                    assert forall|p: D::Pos| rest.contains(p) implies p != first
                        && self.procession.spec_before(first, p) by {
                        let k = choose|k: int| 0 <= k < rest.len() && rest[k] == p;
                        assert(sorted[k] == p);
                        assert(!self.procession.spec_before(sorted[k], sorted[last]));
                        self.procession.lemma_strict_total_order(first, p, p);
                    }
                    assert forall|p: D::Pos| p != first implies (rest.contains(p) <==> sorted.contains(
                        p,
                    )) by {
                        if sorted.contains(p) {
                            let k = choose|k: int| 0 <= k < sorted.len() && sorted[k] == p;
                            assert(rest[k] == p);
                        }
                        if rest.contains(p) {
                            let k = choose|k: int| 0 <= k < rest.len() && rest[k] == p;
                            assert(sorted[k] == p);
                        }
                    }
                },
                None => {},
            }
        }
        r
    }
}

} // verus!
