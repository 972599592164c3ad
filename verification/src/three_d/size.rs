//! Sizes in three dimensions.

use vstd::prelude::*;
use vstd::arithmetic::div_mod::lemma_fundamental_div_mod_converse;
use crate::position::GridPosition;
use crate::position::spec_abs_diff;
use crate::size::GridSize;
use crate::three_d::position::GridPosition3D;
use crate::three_d::position::lemma_box_3d;
use crate::three_d::position::lemma_index_parts;
use crate::three_d::position::spec_nth_in_box;
use crate::two_d::position::lemma_div_bound;
use crate::two_d::size::GridSize2D;
use crate::two_d::size::abs_diff_u32;
use crate::two_d::size::min_u32;

verus! {

/// Size of a grid of three dimensions: its width `x`, its height `y` and its
/// depth `z`.
#[derive(Debug, Clone, Copy, PartialEq, Eq, Structural)]
pub struct GridSize3D {
    pub x: u32,
    pub y: u32,
    pub z: u32,
}

impl GridSize3D {
    /// The size of the three bounds.
    pub fn new(x: u32, y: u32, z: u32) -> (r: Self)
        ensures
            r.x == x,
            r.y == y,
            r.z == z,
    {
        Self { x, y, z }
    }

    /// The bound along the first axis.
    pub fn x(&self) -> (r: u32)
        ensures
            r == self.x,
    {
        self.x
    }

    /// The bound along the second axis.
    pub fn y(&self) -> (r: u32)
        ensures
            r == self.y,
    {
        self.y
    }

    /// The bound along the third axis.
    pub fn z(&self) -> (r: u32)
        ensures
            r == self.z,
    {
        self.z
    }

    /// Size of `z` layers, each of the given size of two dimensions.
    pub fn from_2d(z: u32, size: GridSize2D) -> (r: Self)
        ensures
            r.x == size.x,
            r.y == size.y,
            r.z == z,
    {
        Self { x: size.x, y: size.y, z }
    }
}

impl GridSize for GridSize3D {
    type Pos = GridPosition3D;

    open spec fn spec_bounds(&self) -> Seq<u32> {
        seq![self.x, self.y, self.z]
    }

    open spec fn spec_valid(&self, pos: &GridPosition3D) -> bool {
        pos.x < self.x && pos.y < self.y && pos.z < self.z
    }

    open spec fn spec_count(&self) -> nat {
        (self.x * self.y * self.z) as nat
    }

    open spec fn spec_offset(&self, pos: &GridPosition3D) -> nat {
        (pos.z * (self.x * self.y) + pos.y * self.x + pos.x) as nat
    }

    open spec fn spec_pos_from_offset(&self, offset: nat) -> GridPosition3D {
        GridPosition3D {
            x: ((offset % ((self.x * self.y) as nat)) % (self.x as nat)) as u32,
            y: ((offset % ((self.x * self.y) as nat)) / (self.x as nat)) as u32,
            z: (offset / ((self.x * self.y) as nat)) as u32,
        }
    }

    proof fn lemma_valid(&self, pos: &GridPosition3D) {
        if self.spec_valid(pos) {
            assert forall|i: int| 0 <= i < 3 implies #[trigger] pos.spec_coords()[i]
                < self.spec_bounds()[i] by {}
        }
        if forall|i: int| 0 <= i < 3 ==> #[trigger] pos.spec_coords()[i] < self.spec_bounds()[i] {
            assert(pos.spec_coords()[0] < self.spec_bounds()[0]);
            assert(pos.spec_coords()[1] < self.spec_bounds()[1]);
            assert(pos.spec_coords()[2] < self.spec_bounds()[2]);
        }
    }

    proof fn lemma_offset_in_range(&self, pos: &GridPosition3D) {
        lemma_index_parts(
            self.z as int,
            self.y as int,
            self.x as int,
            pos.z as int,
            pos.y as int,
            pos.x as int,
        );
        assert((pos.z * self.y + pos.y) * self.x + pos.x == pos.z * (self.x * self.y) + pos.y
            * self.x + pos.x) by (nonlinear_arith);
        assert(self.z * self.y * self.x == self.x * self.y * self.z) by (nonlinear_arith);
    }

    proof fn lemma_offset_of_pos_from_offset(&self, offset: nat) {
        let w: int = self.x as int;
        let h: int = self.y as int;
        let d: int = self.z as int;
        let o: int = offset as int;
        assert(w * h > 0 && w > 0) by (nonlinear_arith)
            requires
                0 <= o < w * h * d,
                w >= 0,
                h >= 0,
                d >= 0,
        ;
        assert(o < d * (w * h)) by (nonlinear_arith)
            requires
                o < w * h * d,
        ;
        lemma_div_bound(o, d, w * h);
        let rem: int = o % (w * h);
        assert(rem < h * w) by (nonlinear_arith)
            requires
                rem < w * h,
        ;
        lemma_div_bound(rem, h, w);
        vstd::arithmetic::div_mod::lemma_fundamental_div_mod(o, w * h);
        vstd::arithmetic::div_mod::lemma_fundamental_div_mod(rem, w);
        assert((o / (w * h)) * (w * h) == (w * h) * (o / (w * h))) by (nonlinear_arith);
        assert((rem / w) * w == w * (rem / w)) by (nonlinear_arith);
    }

    proof fn lemma_pos_from_offset_of_offset(&self, pos: &GridPosition3D) {
        let w: int = self.x as int;
        let h: int = self.y as int;
        let rem: int = pos.y * w + pos.x;
        assert(0 <= rem < w * h) by (nonlinear_arith)
            requires
                rem == pos.y * w + pos.x,
                0 <= pos.x < w,
                0 <= pos.y < h,
        ;
        lemma_fundamental_div_mod_converse(pos.z * (w * h) + rem, w * h, pos.z as int, rem);
        lemma_fundamental_div_mod_converse(rem, w, pos.y as int, pos.x as int);
    }

    fn from_slice(slice: &[u32]) -> (r: Self) {
        let r = Self { x: slice[0], y: slice[1], z: slice[2] };
        assert(r.spec_bounds() =~= slice@);
        r
    }

    fn is_position_valid(&self, position: &GridPosition3D) -> (r: bool) {
        position.x < self.x && position.y < self.y && position.z < self.z
    }

    fn is_contained_within(&self, other: &Self) -> (r: bool) {
        proof {
            if self.x <= other.x && self.y <= other.y && self.z <= other.z {
                assert forall|i: int| 0 <= i < 3 implies #[trigger] self.spec_bounds()[i]
                    <= other.spec_bounds()[i] by {}
            } else {
                if forall|i: int|
                    0 <= i < 3 ==> #[trigger] self.spec_bounds()[i] <= other.spec_bounds()[i] {
                    assert(self.spec_bounds()[0] <= other.spec_bounds()[0]);
                    assert(self.spec_bounds()[1] <= other.spec_bounds()[1]);
                    assert(self.spec_bounds()[2] <= other.spec_bounds()[2]);
                }
            }
        }
        self.x <= other.x && self.y <= other.y && self.z <= other.z
    }

    fn get_all_possible_positions(&self) -> (r: Vec<GridPosition3D>) {
        let mut out: Vec<GridPosition3D> = Vec::new();
        let ghost w: int = self.x as int;
        let ghost h: int = self.y as int;
        let ghost d: int = self.z as int;
        let mut x: u32 = 0;
        proof {
            assert((0 * h) * d == 0) by (nonlinear_arith);
        }
        while x < self.x
            invariant
                0 <= x <= self.x,
                w == self.x,
                h == self.y,
                d == self.z,
                w * h * d <= usize::MAX,
                out@.len() == (x * h) * d,
                forall|k: int|
                    0 <= k < out@.len() ==> #[trigger] out@[k] == spec_nth_in_box(0, 0, 0, h, d, k),
            decreases self.x - x,
        {
            let mut y: u32 = 0;
            while y < self.y
                invariant
                    0 <= x < self.x,
                    0 <= y <= self.y,
                    w == self.x,
                    h == self.y,
                    d == self.z,
                    w * h * d <= usize::MAX,
                    out@.len() == (x * h + y) * d,
                    forall|k: int|
                        0 <= k < out@.len() ==> #[trigger] out@[k] == spec_nth_in_box(
                            0,
                            0,
                            0,
                            h,
                            d,
                            k,
                        ),
                decreases self.y - y,
            {
                let mut z: u32 = 0;
                while z < self.z
                    invariant
                        0 <= x < self.x,
                        0 <= y < self.y,
                        0 <= z <= self.z,
                        w == self.x,
                        h == self.y,
                        d == self.z,
                        w * h * d <= usize::MAX,
                        out@.len() == (x * h + y) * d + z,
                        forall|k: int|
                            0 <= k < out@.len() ==> #[trigger] out@[k] == spec_nth_in_box(
                                0,
                                0,
                                0,
                                h,
                                d,
                                k,
                            ),
                    decreases self.z - z,
                {
                    proof {
                        lemma_index_parts(w, h, d, x as int, y as int, z as int);
                    }
                    out.push(GridPosition3D { x, y, z });
                    z = z + 1;
                }
                proof {
                    assert((x * h + y) * d + d == (x * h + (y + 1)) * d) by (nonlinear_arith);
                }
                y = y + 1;
            }
            proof {
                assert((x * h + h) * d == ((x + 1) * h) * d) by (nonlinear_arith);
            }
            x = x + 1;
        }
        proof {
            assert((w * h) * d == w * h * d);
            if w > 0 && h > 0 && d > 0 {
                lemma_box_3d(out@, 0, 0, 0, w, h, d);
            } else {
                assert(w * h * d == 0) by (nonlinear_arith)
                    requires
                        w == 0 || h == 0 || d == 0,
                ;
            }
        }
        out
    }

    fn distance_from_border(&self, position: &GridPosition3D) -> (r: Option<u32>) {
        if !self.is_position_valid(position) {
            return None;
        }
        let dx: u32 = min_u32(position.x, self.x - position.x - 1);
        let dy: u32 = min_u32(position.y, self.y - position.y - 1);
        let dz: u32 = min_u32(position.z, self.z - position.z - 1);
        let d: u32 = min_u32(min_u32(dx, dy), dz);
        proof {
            let b = self.spec_bounds();
            let p = position.spec_coords();
            if d == dx {
                assert(d == p[0] || d == b[0] - p[0] - 1);
            } else if d == dy {
                assert(d == p[1] || d == b[1] - p[1] - 1);
            } else {
                assert(d == p[2] || d == b[2] - p[2] - 1);
            }
        }
        Some(d)
    }

    fn distance_from_center(&self, position: &GridPosition3D) -> (r: Option<u32>) {
        if !self.is_position_valid(position) {
            return None;
        }
        let dx: u32 = abs_diff_u32(position.x, self.x / 2);
        let dy: u32 = abs_diff_u32(position.y, self.y / 2);
        let dz: u32 = abs_diff_u32(position.z, self.z / 2);
        let d: u32 = min_u32(min_u32(dx, dy), dz);
        proof {
            let b = self.spec_bounds();
            let p = position.spec_coords();
            if d == dx {
                assert(d == spec_abs_diff(p[0], (b[0] / 2) as u32));
            } else if d == dy {
                assert(d == spec_abs_diff(p[1], (b[1] / 2) as u32));
            } else {
                assert(d == spec_abs_diff(p[2], (b[2] / 2) as u32));
            }
        }
        Some(d)
    }

    fn center(&self) -> (r: GridPosition3D) {
        GridPosition3D { x: self.x / 2, y: self.y / 2, z: self.z / 2 }
    }

    fn max_tile_count(&self) -> (r: usize) {
        proof {
            assert(self.x * self.y <= 0xffff_ffff * 0xffff_ffff) by (nonlinear_arith)
                requires
                    self.x <= 0xffff_ffff,
                    self.y <= 0xffff_ffff,
            ;
        }
        let xy: u64 = self.x as u64 * self.y as u64;
        proof {
            assert(xy * self.z <= 0xffff_ffff * 0xffff_ffff * 0xffff_ffff) by (nonlinear_arith)
                requires
                    xy <= 0xffff_ffff * 0xffff_ffff,
                    self.z <= 0xffff_ffff,
            ;
        }
        let n: u128 = xy as u128 * self.z as u128;
        n as usize
    }

    fn offset(&self, pos: &GridPosition3D) -> (r: usize) {
        proof {
            assert(self.x * self.y <= 0xffff_ffff * 0xffff_ffff) by (nonlinear_arith)
                requires
                    self.x <= 0xffff_ffff,
                    self.y <= 0xffff_ffff,
            ;
        }
        let xy: u64 = self.x as u64 * self.y as u64;
        proof {
            assert(pos.z * xy <= 0xffff_ffff * 0xffff_ffff * 0xffff_ffff) by (nonlinear_arith)
                requires
                    xy <= 0xffff_ffff * 0xffff_ffff,
                    pos.z <= 0xffff_ffff,
            ;
            assert(pos.y * self.x <= 0xffff_ffff * 0xffff_ffff) by (nonlinear_arith)
                requires
                    self.x <= 0xffff_ffff,
                    pos.y <= 0xffff_ffff,
            ;
        }
        let o: u128 = pos.z as u128 * xy as u128 + pos.y as u128 * self.x as u128 + pos.x as u128;
        o as usize
    }

    fn pos_from_offset(&self, offset: usize) -> (r: GridPosition3D) {
        proof {
            self.lemma_offset_of_pos_from_offset(offset as nat);
            assert(self.x * self.y > 0 && self.x > 0) by (nonlinear_arith)
                requires
                    0 <= offset < self.x * self.y * self.z,
            ;
            assert(self.x * self.y <= 0xffff_ffff * 0xffff_ffff) by (nonlinear_arith)
                requires
                    self.x <= 0xffff_ffff,
                    self.y <= 0xffff_ffff,
            ;
        }
        let xy: u64 = self.x as u64 * self.y as u64;
        let o: u64 = offset as u64;
        let rem: u64 = o % xy;
        let w: u64 = self.x as u64;
        GridPosition3D { x: (rem % w) as u32, y: (rem / w) as u32, z: (o / xy) as u32 }
    }
}

} // verus!
