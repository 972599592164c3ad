//! Sizes in two dimensions.

use vstd::prelude::*;
use vstd::arithmetic::div_mod::lemma_fundamental_div_mod_converse;
use crate::position::GridPosition;
use crate::position::spec_abs_diff;
use crate::position::spec_lex_less;
use crate::size::GridSize;
use crate::size::spec_is_border_distance;
use crate::size::spec_is_center_distance;
use crate::two_d::position::GridPosition2D;
use crate::two_d::position::lemma_div_bound;
use crate::two_d::position::lemma_div_mod_order;

verus! {

/// Size of a grid of two dimensions: its width `x` and its height `y`.
#[derive(Debug, Clone, Copy, PartialEq, Eq, Structural)]
pub struct GridSize2D {
    pub x: u32,
    pub y: u32,
}

impl GridSize2D {
    /// The size of the two bounds.
    pub fn new(x: u32, y: u32) -> (r: Self)
        ensures
            r.x == x,
            r.y == y,
    {
        Self { x, y }
    }

    /// The bound along the first axis.
    pub fn x(&self) -> (r: u32)
        ensures
            r == self.x,
    {
        self.x
    }

    /// The bound along the second axis.
    pub fn y(&self) -> (r: u32)
        ensures
            r == self.y,
    {
        self.y
    }
}

/// The smaller of two numbers.
pub fn min_u32(a: u32, b: u32) -> (r: u32)
    ensures
        r <= a,
        r <= b,
        r == a || r == b,
{
    if a <= b {
        a
    } else {
        b
    }
}

/// The absolute difference of two numbers.
pub fn abs_diff_u32(a: u32, b: u32) -> (r: u32)
    ensures
        r == spec_abs_diff(a, b),
{
    if a >= b {
        a - b
    } else {
        b - a
    }
}

impl GridSize for GridSize2D {
    type Pos = GridPosition2D;

    open spec fn spec_bounds(&self) -> Seq<u32> {
        seq![self.x, self.y]
    }

    open spec fn spec_valid(&self, pos: &GridPosition2D) -> bool {
        pos.x < self.x && pos.y < self.y
    }

    open spec fn spec_count(&self) -> nat {
        (self.x * self.y) as nat
    }

    open spec fn spec_offset(&self, pos: &GridPosition2D) -> nat {
        (pos.y * self.x + pos.x) as nat
    }

    open spec fn spec_pos_from_offset(&self, offset: nat) -> GridPosition2D {
        GridPosition2D { x: (offset % (self.x as nat)) as u32, y: (offset / (self.x as nat)) as u32 }
    }

    proof fn lemma_valid(&self, pos: &GridPosition2D) {
        if self.spec_valid(pos) {
            assert forall|i: int| 0 <= i < 2 implies #[trigger] pos.spec_coords()[i]
                < self.spec_bounds()[i] by {}
        }
        if forall|i: int| 0 <= i < 2 ==> #[trigger] pos.spec_coords()[i] < self.spec_bounds()[i] {
            assert(pos.spec_coords()[0] < self.spec_bounds()[0]);
            assert(pos.spec_coords()[1] < self.spec_bounds()[1]);
        }
    }

    proof fn lemma_offset_in_range(&self, pos: &GridPosition2D) {
        assert(pos.y * self.x + pos.x < self.x * self.y) by (nonlinear_arith)
            requires
                0 <= pos.x < self.x,
                0 <= pos.y < self.y,
        ;
    }

    proof fn lemma_offset_of_pos_from_offset(&self, offset: nat) {
        let w: int = self.x as int;
        let h: int = self.y as int;
        assert(w > 0) by (nonlinear_arith)
            requires
                0 <= offset < w * h,
                w >= 0,
        ;
        assert(offset < h * w) by (nonlinear_arith)
            requires
                offset < w * h,
        ;
        lemma_div_bound(offset as int, h, w);
        vstd::arithmetic::div_mod::lemma_fundamental_div_mod(offset as int, w);
        assert((offset as int / w) * w == w * (offset as int / w)) by (nonlinear_arith);
    }

    proof fn lemma_pos_from_offset_of_offset(&self, pos: &GridPosition2D) {
        let w: int = self.x as int;
        lemma_fundamental_div_mod_converse(pos.y * w + pos.x, w, pos.y as int, pos.x as int);
    }

    fn from_slice(slice: &[u32]) -> (r: Self) {
        let r = Self { x: slice[0], y: slice[1] };
        assert(r.spec_bounds() =~= slice@);
        r
    }

    fn is_position_valid(&self, position: &GridPosition2D) -> (r: bool) {
        position.x < self.x && position.y < self.y
    }

    fn is_contained_within(&self, other: &Self) -> (r: bool) {
        proof {
            if self.x <= other.x && self.y <= other.y {
                assert forall|i: int| 0 <= i < 2 implies #[trigger] self.spec_bounds()[i]
                    <= other.spec_bounds()[i] by {}
            } else {
                if forall|i: int|
                    0 <= i < 2 ==> #[trigger] self.spec_bounds()[i] <= other.spec_bounds()[i] {
                    assert(self.spec_bounds()[0] <= other.spec_bounds()[0]);
                    assert(self.spec_bounds()[1] <= other.spec_bounds()[1]);
                }
            }
        }
        self.x <= other.x && self.y <= other.y
    }

    fn get_all_possible_positions(&self) -> (r: Vec<GridPosition2D>) {
        let mut out: Vec<GridPosition2D> = Vec::new();
        let ghost w: int = self.x as int;
        let ghost h: int = self.y as int;
        let mut x: u32 = 0;
        while x < self.x
            invariant
                0 <= x <= self.x,
                w == self.x,
                h == self.y,
                w * h <= usize::MAX,
                out@.len() == x * h,
                forall|k: int|
                    0 <= k < out@.len() ==> #[trigger] out@[k] == (GridPosition2D {
                        x: (k / h) as u32,
                        y: (k % h) as u32,
                    }),
            decreases self.x - x,
        {
            let mut y: u32 = 0;
            while y < self.y
                invariant
                    0 <= x < self.x,
                    0 <= y <= self.y,
                    w == self.x,
                    h == self.y,
                    w * h <= usize::MAX,
                    out@.len() == x * h + y,
                    forall|k: int|
                        0 <= k < out@.len() ==> #[trigger] out@[k] == (GridPosition2D {
                            x: (k / h) as u32,
                            y: (k % h) as u32,
                        }),
                decreases self.y - y,
            {
                proof {
                    let k = out@.len() as int;
                    lemma_fundamental_div_mod_converse(k, h, x as int, y as int);
                    assert(x * h + y < w * h) by (nonlinear_arith)
                        requires
                            0 <= x < w,
                            0 <= y < h,
                    ;
                }
                out.push(GridPosition2D { x, y });
                y = y + 1;
            }
            proof {
                assert(x * h + h == (x + 1) * h) by (nonlinear_arith);
            }
            x = x + 1;
        }
        proof {
            let s = out@;
            assert forall|k: int| 0 <= k < s.len() implies 0 <= k / h < w && 0 <= #[trigger] (k % h)
                < h by {
                lemma_div_bound(k, w, h);
            }
            assert forall|p: GridPosition2D| s.contains(p) <==> self.spec_valid(&p) by {
                if self.spec_valid(&p) {
                    let k: int = p.x * h + p.y;
                    lemma_fundamental_div_mod_converse(k, h, p.x as int, p.y as int);
                    assert(0 <= k < w * h) by (nonlinear_arith)
                        requires
                            k == p.x * h + p.y,
                            0 <= p.x < w,
                            0 <= p.y < h,
                    ;
                    assert(s[k] == p);
                }
                if s.contains(p) {
                    let k = choose|k: int| 0 <= k < s.len() && s[k] == p;
                    assert(0 <= k / h < w && 0 <= k % h < h);
                }
            }
            assert forall|i: int, j: int| 0 <= i < j < s.len() implies spec_lex_less(
                (#[trigger] s[i]).spec_coords(),
                (#[trigger] s[j]).spec_coords(),
            ) by {
                lemma_div_mod_order(i, j, h);
                assert(0 <= i / h < w && 0 <= i % h < h);
                assert(0 <= j / h < w && 0 <= j % h < h);
                let a = s[i].spec_coords();
                let b = s[j].spec_coords();
                if i / h < j / h {
                    assert(a[0] < b[0]);
                } else {
                    assert(a[0] == b[0]);
                    assert(a[1] < b[1]);
                }
            }
        }
        out
    }

    fn distance_from_border(&self, position: &GridPosition2D) -> (r: Option<u32>) {
        if !self.is_position_valid(position) {
            return None;
        }
        let dx: u32 = min_u32(position.x, self.x - position.x - 1);
        let dy: u32 = min_u32(position.y, self.y - position.y - 1);
        let d: u32 = min_u32(dx, dy);
        proof {
            let b = self.spec_bounds();
            let p = position.spec_coords();
            if d == dx {
                assert(d == p[0] || d == b[0] - p[0] - 1);
            } else {
                assert(d == p[1] || d == b[1] - p[1] - 1);
            }
        }
        Some(d)
    }

    fn distance_from_center(&self, position: &GridPosition2D) -> (r: Option<u32>) {
        if !self.is_position_valid(position) {
            return None;
        }
        let dx: u32 = abs_diff_u32(position.x, self.x / 2);
        let dy: u32 = abs_diff_u32(position.y, self.y / 2);
        let d: u32 = min_u32(dx, dy);
        proof {
            let b = self.spec_bounds();
            let p = position.spec_coords();
            if d == dx {
                assert(d == spec_abs_diff(p[0], (b[0] / 2) as u32));
            } else {
                assert(d == spec_abs_diff(p[1], (b[1] / 2) as u32));
            }
        }
        Some(d)
    }

    fn center(&self) -> (r: GridPosition2D) {
        GridPosition2D { x: self.x / 2, y: self.y / 2 }
    }

    fn max_tile_count(&self) -> (r: usize) {
        let n: u64 = self.x as u64 * self.y as u64;
        n as usize
    }

    fn offset(&self, pos: &GridPosition2D) -> (r: usize) {
        let o: u64 = pos.y as u64 * self.x as u64 + pos.x as u64;
        o as usize
    }

    fn pos_from_offset(&self, offset: usize) -> (r: GridPosition2D) {
        proof {
            self.lemma_offset_of_pos_from_offset(offset as nat);
        }
        let w: usize = self.x as usize;
        GridPosition2D { x: (offset % w) as u32, y: (offset / w) as u32 }
    }
}

} // verus!
