//! Positions in three dimensions.

use vstd::prelude::*;
use vstd::arithmetic::div_mod::lemma_fundamental_div_mod_converse;
use crate::position::GridPosition;
use crate::position::spec_box_count;
use crate::position::spec_in_box;
use crate::position::spec_lex_less;
use crate::position::spec_max;
use crate::position::spec_min;
use crate::two_d::position::lemma_div_bound;
use crate::two_d::position::lemma_div_mod_order;

verus! {

/// Position of a cell in a grid of three dimensions.
#[derive(Debug, Clone, Copy, PartialEq, Eq, Structural, PartialOrd, Ord, Hash)]
pub struct GridPosition3D {
    pub x: u32,
    pub y: u32,
    pub z: u32,
}

impl GridPosition3D {
    /// The position of the three coordinates.
    pub fn new(x: u32, y: u32, z: u32) -> (r: Self)
        ensures
            r.x == x,
            r.y == y,
            r.z == z,
    {
        Self { x, y, z }
    }

    /// The coordinate along the first axis.
    pub fn x(&self) -> (r: u32)
        ensures
            r == self.x,
    {
        self.x
    }

    /// The coordinate along the second axis.
    pub fn y(&self) -> (r: u32)
        ensures
            r == self.y,
    {
        self.y
    }

    /// The coordinate along the third axis.
    pub fn z(&self) -> (r: u32)
        ensures
            r == self.z,
    {
        self.z
    }

    /// The coordinates of the position: `x`, `y`, then `z`.
    pub fn coords(&self) -> (r: [u32; 3])
        ensures
            r@ == self.spec_coords(),
    {
        let r: [u32; 3] = [self.x, self.y, self.z];
        assert(r@ =~= self.spec_coords());
        r
    }

    /// Creates the position from its coordinates: `x`, `y`, then `z`.
    pub fn from_coords(coords: [u32; 3]) -> (r: Self)
        ensures
            r.spec_coords() == coords@,
    {
        let r = Self { x: coords[0], y: coords[1], z: coords[2] };
        assert(r.spec_coords() =~= coords@);
        r
    }
}

impl core::ops::AddAssign for GridPosition3D {
    fn add_assign(&mut self, rhs: Self)
        requires
            old(self).x + rhs.x <= u32::MAX,
            old(self).y + rhs.y <= u32::MAX,
            old(self).z + rhs.z <= u32::MAX,
        ensures
            final(self).x == old(self).x + rhs.x,
            final(self).y == old(self).y + rhs.y,
            final(self).z == old(self).z + rhs.z,
    {
        self.x = self.x + rhs.x;
        self.y = self.y + rhs.y;
        self.z = self.z + rhs.z;
    }
}

impl core::ops::Add for GridPosition3D {
    type Output = Self;

    fn add(self, rhs: Self) -> (r: Self) {
        Self { x: self.x + rhs.x, y: self.y + rhs.y, z: self.z + rhs.z }
    }
}

impl vstd::std_specs::ops::AddSpecImpl for GridPosition3D {
    open spec fn obeys_add_spec() -> bool {
        true
    }

    open spec fn add_req(self, rhs: Self) -> bool {
        self.x + rhs.x <= u32::MAX && self.y + rhs.y <= u32::MAX && self.z + rhs.z <= u32::MAX
    }

    open spec fn add_spec(self, rhs: Self) -> Self {
        GridPosition3D {
            x: (self.x + rhs.x) as u32,
            y: (self.y + rhs.y) as u32,
            z: (self.z + rhs.z) as u32,
        }
    }
}

impl core::ops::Sub for GridPosition3D {
    type Output = Self;

    fn sub(self, rhs: Self) -> (r: Self) {
        Self {
            x: if self.x >= rhs.x {
                self.x - rhs.x
            } else {
                rhs.x - self.x
            },
            y: if self.y >= rhs.y {
                self.y - rhs.y
            } else {
                rhs.y - self.y
            },
            z: if self.z >= rhs.z {
                self.z - rhs.z
            } else {
                rhs.z - self.z
            },
        }
    }
}

impl vstd::std_specs::ops::SubSpecImpl for GridPosition3D {
    open spec fn obeys_sub_spec() -> bool {
        true
    }

    open spec fn sub_req(self, rhs: Self) -> bool {
        true
    }

    open spec fn sub_spec(self, rhs: Self) -> Self {
        GridPosition3D {
            x: crate::position::spec_abs_diff(self.x, rhs.x) as u32,
            y: crate::position::spec_abs_diff(self.y, rhs.y) as u32,
            z: crate::position::spec_abs_diff(self.z, rhs.z) as u32,
        }
    }
}

/// Position whose coordinates are spelled by an index that counts `z`
/// fastest, then `y`, then `x`, from the corner `(x0, y0, z0)` of a box that
/// is `h` high and `d` deep.
pub open spec fn spec_nth_in_box(x0: int, y0: int, z0: int, h: int, d: int, k: int) -> GridPosition3D {
    GridPosition3D {
        x: (x0 + (k / d) / h) as u32,
        y: (y0 + (k / d) % h) as u32,
        z: (z0 + k % d) as u32,
    }
}

/// The index that counts `z` fastest, then `y`, then `x`, spells its
/// three parts back.
pub proof fn lemma_index_parts(w: int, h: int, d: int, a: int, b: int, c: int)
    requires
        0 <= a < w,
        0 <= b < h,
        0 <= c < d,
    ensures
        0 <= (a * h + b) * d + c < w * h * d,
        ((a * h + b) * d + c) % d == c,
        ((a * h + b) * d + c) / d == a * h + b,
        (((a * h + b) * d + c) / d) % h == b,
        (((a * h + b) * d + c) / d) / h == a,
{
    let m: int = a * h + b;
    assert(0 <= m < w * h) by (nonlinear_arith)
        requires
            m == a * h + b,
            0 <= a < w,
            0 <= b < h,
    ;
    assert(0 <= m * d + c < (w * h) * d) by (nonlinear_arith)
        requires
            0 <= m < w * h,
            0 <= c < d,
    ;
    lemma_fundamental_div_mod_converse(m * d + c, d, m, c);
    lemma_fundamental_div_mod_converse(m, h, a, b);
}

/// The three parts of an index below `w * h * d`, counted as above, lie
/// within their bounds.
pub proof fn lemma_parts_bounds(w: int, h: int, d: int, k: int)
    requires
        0 <= k < w * h * d,
        0 < h,
        0 < d,
    ensures
        0 <= k % d < d,
        0 <= (k / d) % h < h,
        0 <= (k / d) / h < w,
        k == (((k / d) / h) * h + (k / d) % h) * d + k % d,
{
    assert(k < (w * h) * d);
    lemma_div_bound(k, w * h, d);
    lemma_div_bound(k / d, w, h);
    vstd::arithmetic::div_mod::lemma_fundamental_div_mod(k, d);
    vstd::arithmetic::div_mod::lemma_fundamental_div_mod(k / d, h);
    assert(h * ((k / d) / h) == ((k / d) / h) * h) by (nonlinear_arith);
    assert(d * (k / d) == (k / d) * d) by (nonlinear_arith);
}

/// The three parts of an index, counted as above, order indices as the
/// indices are ordered.
pub proof fn lemma_parts_order(h: int, d: int, i: int, j: int)
    requires
        0 <= i < j,
        0 < h,
        0 < d,
    ensures
        (i / d) / h < (j / d) / h || ((i / d) / h == (j / d) / h && ((i / d) % h < (j / d) % h || ((i
            / d) % h == (j / d) % h && i % d < j % d))),
{
    lemma_div_mod_order(i, j, d);
    vstd::arithmetic::div_mod::lemma_div_pos_is_pos(i, d);
    if i / d < j / d {
        lemma_div_mod_order(i / d, j / d, h);
    }
}

/// What follows for a sequence that holds the positions of a box in the
/// order of `spec_nth_in_box`: it holds exactly the positions of the box, in
/// lexicographic order.
pub proof fn lemma_box_3d(s: Seq<GridPosition3D>, x0: int, y0: int, z0: int, w: int, h: int, d: int)
    requires
        0 <= x0,
        0 <= y0,
        0 <= z0,
        0 < w,
        0 < h,
        0 < d,
        x0 + w <= 0x1_0000_0000,
        y0 + h <= 0x1_0000_0000,
        z0 + d <= 0x1_0000_0000,
        s.len() == w * h * d,
        forall|k: int| 0 <= k < s.len() ==> #[trigger] s[k] == spec_nth_in_box(x0, y0, z0, h, d, k),
    ensures
        forall|p: GridPosition3D|
            s.contains(p) <==> (x0 <= p.x < x0 + w && y0 <= p.y < y0 + h && z0 <= p.z < z0 + d),
        forall|i: int, j: int|
            0 <= i < j < s.len() ==> spec_lex_less(
                (#[trigger] s[i]).spec_coords(),
                (#[trigger] s[j]).spec_coords(),
            ),
{
    assert forall|p: GridPosition3D|
        s.contains(p) <==> (x0 <= p.x < x0 + w && y0 <= p.y < y0 + h && z0 <= p.z < z0 + d) by {
        if x0 <= p.x < x0 + w && y0 <= p.y < y0 + h && z0 <= p.z < z0 + d {
            let k: int = ((p.x - x0) * h + (p.y - y0)) * d + (p.z - z0);
            lemma_index_parts(w, h, d, p.x - x0, p.y - y0, p.z - z0);
            assert(s[k] == p);
        }
        if s.contains(p) {
            let k = choose|k: int| 0 <= k < s.len() && s[k] == p;
            lemma_parts_bounds(w, h, d, k);
        }
    }
    assert forall|i: int, j: int| 0 <= i < j < s.len() implies spec_lex_less(
        (#[trigger] s[i]).spec_coords(),
        (#[trigger] s[j]).spec_coords(),
    ) by {
        lemma_parts_order(h, d, i, j);
        lemma_parts_bounds(w, h, d, i);
        lemma_parts_bounds(w, h, d, j);
        let a = s[i].spec_coords();
        let b = s[j].spec_coords();
        if (i / d) / h < (j / d) / h {
            assert(a[0] < b[0]);
        } else if (i / d) % h < (j / d) % h {
            assert(a[0] == b[0]);
            assert(a[1] < b[1]);
        } else {
            assert(a[0] == b[0]);
            assert(a[1] == b[1]);
            assert(a[2] < b[2]);
        }
    }
}

impl GridPosition for GridPosition3D {
    open spec fn spec_dims() -> nat {
        3
    }

    open spec fn spec_coords(&self) -> Seq<u32> {
        seq![self.x, self.y, self.z]
    }

    proof fn lemma_coords_len(&self) {
    }

    proof fn lemma_coords_injective(a: Self, b: Self) {
        assert(a.spec_coords()[0] == b.spec_coords()[0]);
        assert(a.spec_coords()[1] == b.spec_coords()[1]);
        assert(a.spec_coords()[2] == b.spec_coords()[2]);
    }

    fn dims() -> (r: usize) {
        3
    }

    fn coord(&self, idx: usize) -> (r: u32) {
        if idx == 0 {
            self.x
        } else if idx == 1 {
            self.y
        } else {
            self.z
        }
    }

    fn from_slice(slice: &[u32]) -> (r: Self) {
        let r = Self { x: slice[0], y: slice[1], z: slice[2] };
        assert(r.spec_coords() =~= slice@);
        r
    }

    fn same(&self, other: &Self) -> (r: bool) {
        self.x == other.x && self.y == other.y && self.z == other.z
    }

    fn translated(&self, by: &Self) -> (r: Self) {
        proof {
            assert(self.spec_coords()[0] + by.spec_coords()[0] <= u32::MAX);
            assert(self.spec_coords()[1] + by.spec_coords()[1] <= u32::MAX);
            assert(self.spec_coords()[2] + by.spec_coords()[2] <= u32::MAX);
        }
        let r = Self { x: self.x + by.x, y: self.y + by.y, z: self.z + by.z };
        proof {
            assert(r.spec_coords() =~= crate::position::spec_translated(
                self.spec_coords(),
                by.spec_coords(),
            ));
        }
        r
    }

    fn generate_rect_area(a: &Self, b: &Self) -> (r: Vec<Self>) {
        let x0: u32 = if a.x <= b.x { a.x } else { b.x };
        let x1: u32 = if a.x <= b.x { b.x } else { a.x };
        let y0: u32 = if a.y <= b.y { a.y } else { b.y };
        let y1: u32 = if a.y <= b.y { b.y } else { a.y };
        let z0: u32 = if a.z <= b.z { a.z } else { b.z };
        let z1: u32 = if a.z <= b.z { b.z } else { a.z };
        let ghost w: int = x1 - x0 + 1;
        let ghost h: int = y1 - y0 + 1;
        let ghost d: int = z1 - z0 + 1;
        proof {
            reveal_with_fuel(spec_box_count, 4);
            assert(spec_box_count(a.spec_coords(), b.spec_coords(), 3) == w * h * d) by (nonlinear_arith)
                requires
                    spec_box_count(a.spec_coords(), b.spec_coords(), 3) == ((1 * w) * h) * d,
            ;
        }
        let mut out: Vec<Self> = Vec::new();
        let mut x: u64 = x0 as u64;
        proof {
            assert((0 * h) * d == 0) by (nonlinear_arith);
        }
        while x <= x1 as u64
            invariant
                x0 <= x <= x1 + 1,
                y0 <= y1,
                z0 <= z1,
                w == x1 - x0 + 1,
                h == y1 - y0 + 1,
                d == z1 - z0 + 1,
                w * h * d <= usize::MAX,
                out@.len() == ((x - x0) * h) * d,
                forall|k: int|
                    0 <= k < out@.len() ==> #[trigger] out@[k] == spec_nth_in_box(
                        x0 as int,
                        y0 as int,
                        z0 as int,
                        h,
                        d,
                        k,
                    ),
            decreases x1 + 1 - x,
        {
            let mut y: u64 = y0 as u64;
            while y <= y1 as u64
                invariant
                    x0 <= x <= x1,
                    y0 <= y <= y1 + 1,
                    z0 <= z1,
                    w == x1 - x0 + 1,
                    h == y1 - y0 + 1,
                    d == z1 - z0 + 1,
                    w * h * d <= usize::MAX,
                    out@.len() == ((x - x0) * h + (y - y0)) * d,
                    forall|k: int|
                        0 <= k < out@.len() ==> #[trigger] out@[k] == spec_nth_in_box(
                            x0 as int,
                            y0 as int,
                            z0 as int,
                            h,
                            d,
                            k,
                        ),
                decreases y1 + 1 - y,
            {
                let mut z: u64 = z0 as u64;
                while z <= z1 as u64
                    invariant
                        x0 <= x <= x1,
                        y0 <= y <= y1,
                        z0 <= z <= z1 + 1,
                        w == x1 - x0 + 1,
                        h == y1 - y0 + 1,
                        d == z1 - z0 + 1,
                        w * h * d <= usize::MAX,
                        out@.len() == ((x - x0) * h + (y - y0)) * d + (z - z0),
                        forall|k: int|
                            0 <= k < out@.len() ==> #[trigger] out@[k] == spec_nth_in_box(
                                x0 as int,
                                y0 as int,
                                z0 as int,
                                h,
                                d,
                                k,
                            ),
                    decreases z1 + 1 - z,
                {
                    proof {
                        lemma_index_parts(w, h, d, x - x0, y - y0, z - z0);
                    }
                    out.push(Self { x: x as u32, y: y as u32, z: z as u32 });
                    z = z + 1;
                }
                proof {
                    assert(((x - x0) * h + (y - y0)) * d + d == ((x - x0) * h + (y + 1 - y0)) * d)
                        by (nonlinear_arith);
                }
                y = y + 1;
            }
            proof {
                assert(((x - x0) * h + h) * d == ((x + 1 - x0) * h) * d) by (nonlinear_arith);
            }
            x = x + 1;
        }
        proof {
            assert(((x1 + 1 - x0) * h) * d == w * h * d) by (nonlinear_arith)
                requires
                    w == x1 - x0 + 1,
            ;
            lemma_box_3d(out@, x0 as int, y0 as int, z0 as int, w, h, d);
            assert forall|p: Self| out@.contains(p) <==> spec_in_box(
                a.spec_coords(),
                b.spec_coords(),
                p.spec_coords(),
            ) by {
                let pc = p.spec_coords();
                let ac = a.spec_coords();
                let bc = b.spec_coords();
                if spec_in_box(ac, bc, pc) {
                    assert(spec_min(ac[0], bc[0]) <= pc[0] <= spec_max(ac[0], bc[0]));
                    assert(spec_min(ac[1], bc[1]) <= pc[1] <= spec_max(ac[1], bc[1]));
                    assert(spec_min(ac[2], bc[2]) <= pc[2] <= spec_max(ac[2], bc[2]));
                }
            }
        }
        out
    }
}

} // verus!
