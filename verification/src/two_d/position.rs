//! Positions in two dimensions.

use vstd::prelude::*;
use vstd::arithmetic::div_mod::lemma_fundamental_div_mod_converse;
use crate::position::GridPosition;
use crate::position::spec_box_count;
use crate::position::spec_in_box;
use crate::position::spec_lex_less;
use crate::position::spec_max;
use crate::position::spec_min;

verus! {

/// Position of a cell in a grid of two dimensions.
#[derive(Debug, Clone, Copy, PartialEq, Eq, Structural, PartialOrd, Ord, Hash)]
pub struct GridPosition2D {
    pub x: u32,
    pub y: u32,
}

impl GridPosition2D {
    /// The position of the two coordinates.
    pub fn new(x: u32, y: u32) -> (r: Self)
        ensures
            r.x == x,
            r.y == y,
    {
        Self { x, y }
    }

    /// The coordinate along the first axis.
    pub fn x(&self) -> (r: u32)
        ensures
            r == self.x,
    {
        self.x
    }

    /// The coordinate along the second axis.
    pub fn y(&self) -> (r: u32)
        ensures
            r == self.y,
    {
        self.y
    }

    /// The coordinates of the position: `x`, then `y`.
    pub fn coords(&self) -> (r: [u32; 2])
        ensures
            r@ == self.spec_coords(),
    {
        let r: [u32; 2] = [self.x, self.y];
        assert(r@ =~= self.spec_coords());
        r
    }

    /// Creates the position from its coordinates: `x`, then `y`.
    pub fn from_coords(coords: [u32; 2]) -> (r: Self)
        ensures
            r.spec_coords() == coords@,
    {
        let r = Self { x: coords[0], y: coords[1] };
        assert(r.spec_coords() =~= coords@);
        r
    }
}

impl core::ops::AddAssign for GridPosition2D {
    fn add_assign(&mut self, rhs: Self)
        requires
            old(self).x + rhs.x <= u32::MAX,
            old(self).y + rhs.y <= u32::MAX,
        ensures
            final(self).x == old(self).x + rhs.x,
            final(self).y == old(self).y + rhs.y,
    {
        self.x = self.x + rhs.x;
        self.y = self.y + rhs.y;
    }
}

impl core::ops::Add for GridPosition2D {
    type Output = Self;

    fn add(self, rhs: Self) -> (r: Self) {
        Self { x: self.x + rhs.x, y: self.y + rhs.y }
    }
}

impl vstd::std_specs::ops::AddSpecImpl for GridPosition2D {
    open spec fn obeys_add_spec() -> bool {
        true
    }

    open spec fn add_req(self, rhs: Self) -> bool {
        self.x + rhs.x <= u32::MAX && self.y + rhs.y <= u32::MAX
    }

    open spec fn add_spec(self, rhs: Self) -> Self {
        GridPosition2D { x: (self.x + rhs.x) as u32, y: (self.y + rhs.y) as u32 }
    }
}

impl core::ops::Sub for GridPosition2D {
    type Output = Self;

    fn sub(self, rhs: Self) -> (r: Self) {
        Self {
            x: if self.x >= rhs.x {
                self.x - rhs.x
            } else {
                rhs.x - self.x
            },
            y: if self.y >= rhs.y {
                self.y - rhs.y
            } else {
                rhs.y - self.y
            },
        }
    }
}

impl vstd::std_specs::ops::SubSpecImpl for GridPosition2D {
    open spec fn obeys_sub_spec() -> bool {
        true
    }

    open spec fn sub_req(self, rhs: Self) -> bool {
        true
    }

    open spec fn sub_spec(self, rhs: Self) -> Self {
        GridPosition2D {
            x: crate::position::spec_abs_diff(self.x, rhs.x) as u32,
            y: crate::position::spec_abs_diff(self.y, rhs.y) as u32,
        }
    }
}

impl GridPosition for GridPosition2D {
    open spec fn spec_dims() -> nat {
        2
    }

    open spec fn spec_coords(&self) -> Seq<u32> {
        seq![self.x, self.y]
    }

    proof fn lemma_coords_len(&self) {
    }

    proof fn lemma_coords_injective(a: Self, b: Self) {
        assert(a.spec_coords()[0] == b.spec_coords()[0]);
        assert(a.spec_coords()[1] == b.spec_coords()[1]);
    }

    fn dims() -> (r: usize) {
        2
    }

    fn coord(&self, idx: usize) -> (r: u32) {
        if idx == 0 {
            self.x
        } else {
            self.y
        }
    }

    fn from_slice(slice: &[u32]) -> (r: Self) {
        let r = Self { x: slice[0], y: slice[1] };
        assert(r.spec_coords() =~= slice@);
        r
    }

    fn same(&self, other: &Self) -> (r: bool) {
        self.x == other.x && self.y == other.y
    }

    fn translated(&self, by: &Self) -> (r: Self) {
        proof {
            assert(self.spec_coords()[0] + by.spec_coords()[0] <= u32::MAX);
            assert(self.spec_coords()[1] + by.spec_coords()[1] <= u32::MAX);
        }
        let r = Self { x: self.x + by.x, y: self.y + by.y };
        proof {
            assert(r.spec_coords() =~= crate::position::spec_translated(
                self.spec_coords(),
                by.spec_coords(),
            ));
        }
        r
    }

    fn generate_rect_area(a: &Self, b: &Self) -> (r: Vec<Self>) {
        let x0: u32 = if a.x <= b.x { a.x } else { b.x };
        let x1: u32 = if a.x <= b.x { b.x } else { a.x };
        let y0: u32 = if a.y <= b.y { a.y } else { b.y };
        let y1: u32 = if a.y <= b.y { b.y } else { a.y };
        let ghost w: int = x1 - x0 + 1;
        let ghost h: int = y1 - y0 + 1;
        proof {
            reveal_with_fuel(spec_box_count, 3);
            assert(spec_box_count(a.spec_coords(), b.spec_coords(), 2) == w * h) by (nonlinear_arith)
                requires
                    spec_box_count(a.spec_coords(), b.spec_coords(), 2) == (1 * w) * h,
            ;
        }
        let mut out: Vec<Self> = Vec::new();
        let mut x: u64 = x0 as u64;
        while x <= x1 as u64
            invariant
                x0 <= x <= x1 + 1,
                y0 <= y1,
                w == x1 - x0 + 1,
                h == y1 - y0 + 1,
                w * h <= usize::MAX,
                out@.len() == (x - x0) * h,
                forall|k: int|
                    0 <= k < out@.len() ==> #[trigger] out@[k] == (GridPosition2D {
                        x: (x0 + k / h) as u32,
                        y: (y0 + k % h) as u32,
                    }),
            decreases x1 + 1 - x,
        {
            let mut y: u64 = y0 as u64;
            while y <= y1 as u64
                invariant
                    x0 <= x <= x1,
                    y0 <= y <= y1 + 1,
                    w == x1 - x0 + 1,
                    h == y1 - y0 + 1,
                    w * h <= usize::MAX,
                    out@.len() == (x - x0) * h + (y - y0),
                    forall|k: int|
                        0 <= k < out@.len() ==> #[trigger] out@[k] == (GridPosition2D {
                            x: (x0 + k / h) as u32,
                            y: (y0 + k % h) as u32,
                        }),
                decreases y1 + 1 - y,
            {
                proof {
                    let k = out@.len() as int;
                    lemma_fundamental_div_mod_converse(k, h, x - x0, y - y0);
                    assert((x - x0) * h + (y - y0) < w * h) by (nonlinear_arith)
                        requires
                            0 <= x - x0 < w,
                            0 <= y - y0 < h,
                    ;
                }
                out.push(Self { x: x as u32, y: y as u32 });
                y = y + 1;
            }
            proof {
                assert((x - x0) * h + h == (x + 1 - x0) * h) by (nonlinear_arith);
            }
            x = x + 1;
        }
        proof {
            lemma_rect_area_2d(out@, x0, x1, y0, y1);
            assert forall|p: Self| out@.contains(p) <==> spec_in_box(
                a.spec_coords(),
                b.spec_coords(),
                p.spec_coords(),
            ) by {
                let pc = p.spec_coords();
                if spec_in_box(a.spec_coords(), b.spec_coords(), pc) {
                    assert(spec_min(a.spec_coords()[0], b.spec_coords()[0]) <= pc[0] <= spec_max(
                        a.spec_coords()[0],
                        b.spec_coords()[0],
                    ));
                    assert(spec_min(a.spec_coords()[1], b.spec_coords()[1]) <= pc[1] <= spec_max(
                        a.spec_coords()[1],
                        b.spec_coords()[1],
                    ));
                }
            }
        }
        out
    }
}

/// What follows for a sequence that holds the positions of a box row after
/// row: it holds exactly the positions of the box, in lexicographic order.
proof fn lemma_rect_area_2d(s: Seq<GridPosition2D>, x0: u32, x1: u32, y0: u32, y1: u32)
    requires
        x0 <= x1,
        y0 <= y1,
        s.len() == (x1 - x0 + 1) * (y1 - y0 + 1),
        forall|k: int|
            0 <= k < s.len() ==> #[trigger] s[k] == (GridPosition2D {
                x: (x0 + k / (y1 - y0 + 1)) as u32,
                y: (y0 + k % (y1 - y0 + 1)) as u32,
            }),
    ensures
        forall|p: GridPosition2D|
            s.contains(p) <==> (x0 <= p.x <= x1 && y0 <= p.y <= y1),
        forall|i: int, j: int|
            0 <= i < j < s.len() ==> spec_lex_less(
                (#[trigger] s[i]).spec_coords(),
                (#[trigger] s[j]).spec_coords(),
            ),
{
    let w: int = x1 - x0 + 1;
    let h: int = y1 - y0 + 1;
    assert forall|k: int| 0 <= k < s.len() implies 0 <= k / h < w && 0 <= #[trigger] (k % h) < h by {
        lemma_div_bound(k, w, h);
    }
    assert forall|p: GridPosition2D| s.contains(p) <==> (x0 <= p.x <= x1 && y0 <= p.y <= y1) by {
        if x0 <= p.x <= x1 && y0 <= p.y <= y1 {
            let k: int = (p.x - x0) * h + (p.y - y0);
            lemma_fundamental_div_mod_converse(k, h, p.x - x0, p.y - y0);
            assert(0 <= k < w * h) by (nonlinear_arith)
                requires
                    k == (p.x - x0) * h + (p.y - y0),
                    0 <= p.x - x0 < w,
                    0 <= p.y - y0 < h,
            ;
            assert(s[k] == p);
        }
        if s.contains(p) {
            let k = choose|k: int| 0 <= k < s.len() && s[k] == p;
            assert(0 <= k / h < w && 0 <= k % h < h);
        }
    }
    assert forall|i: int, j: int| 0 <= i < j < s.len() implies spec_lex_less(
        (#[trigger] s[i]).spec_coords(),
        (#[trigger] s[j]).spec_coords(),
    ) by {
        lemma_div_mod_order(i, j, h);
        assert(0 <= i / h < w && 0 <= i % h < h);
        assert(0 <= j / h < w && 0 <= j % h < h);
        let a = s[i].spec_coords();
        let b = s[j].spec_coords();
        if i / h < j / h {
            assert(a[0] < b[0]);
        } else {
            assert(a[0] == b[0]);
            assert(a[1] < b[1]);
        }
    }
}

/// The quotient of an index below `w * h` by `h` lies below `w`.
pub proof fn lemma_div_bound(k: int, w: int, h: int)
    requires
        0 <= k < w * h,
        0 < h,
    ensures
        0 <= k / h < w,
        0 <= k % h < h,
{
    vstd::arithmetic::div_mod::lemma_fundamental_div_mod(k, h);
    vstd::arithmetic::div_mod::lemma_mod_bound(k, h);
    vstd::arithmetic::div_mod::lemma_div_pos_is_pos(k, h);
    if k / h >= w {
        assert(h * (k / h) >= h * w) by (nonlinear_arith)
            requires
                k / h >= w,
                h > 0,
        ;
        assert(h * w == w * h) by (nonlinear_arith);
    }
}

/// Quotient and remainder by `h` order indices as the indices are ordered.
pub proof fn lemma_div_mod_order(i: int, j: int, h: int)
    requires
        0 <= i < j,
        0 < h,
    ensures
        i / h < j / h || (i / h == j / h && i % h < j % h),
{
    vstd::arithmetic::div_mod::lemma_fundamental_div_mod(i, h);
    vstd::arithmetic::div_mod::lemma_fundamental_div_mod(j, h);
    vstd::arithmetic::div_mod::lemma_mod_bound(i, h);
    vstd::arithmetic::div_mod::lemma_mod_bound(j, h);
    if i / h > j / h {
        assert(h * (i / h) >= h * (j / h) + h) by (nonlinear_arith)
            requires
                i / h >= j / h + 1,
                h > 0,
        ;
    }
}

} // verus!
