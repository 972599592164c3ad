//! Positions of cells in a grid.

use vstd::prelude::*;

verus! {

/// Sum of the coordinate-wise absolute differences of the first `n`
/// coordinates of two coordinate sequences.
pub open spec fn spec_distance_prefix(a: Seq<u32>, b: Seq<u32>, n: int) -> int
    decreases n,
{
    if n <= 0 {
        0
    } else {
        spec_distance_prefix(a, b, n - 1) + spec_abs_diff(a[n - 1], b[n - 1])
    }
}

/// Absolute difference of two coordinates.
pub open spec fn spec_abs_diff(a: u32, b: u32) -> int {
    if a >= b {
        a - b
    } else {
        b - a
    }
}

/// Manhattan distance between two coordinate sequences of equal length.
pub open spec fn spec_distance(a: Seq<u32>, b: Seq<u32>) -> int {
    spec_distance_prefix(a, b, a.len() as int)
}

/// The positions of `s` that do not occur in `excluded`, in their order in `s`.
pub open spec fn spec_without<P>(s: Seq<P>, excluded: Seq<P>) -> Seq<P> {
    s.filter(|p: P| !excluded.contains(p))
}

/// The distance over the first `n` coordinates is not negative, and at most
/// `n` times the largest coordinate.
pub proof fn lemma_distance_prefix_bounds(a: Seq<u32>, b: Seq<u32>, n: int)
    requires
        0 <= n <= a.len(),
        n <= b.len(),
    ensures
        0 <= spec_distance_prefix(a, b, n) <= n * 0xffff_ffff,
    decreases n,
{
    if n > 0 {
        lemma_distance_prefix_bounds(a, b, n - 1);
        assert((n - 1) * 0xffff_ffff + 0xffff_ffff == n * 0xffff_ffff) by (nonlinear_arith);
    }
}

/// Filtering a sequence that ends in `p` filters the rest and then decides on `p`.
pub proof fn lemma_filter_push<A>(s: Seq<A>, p: A, pred: spec_fn(A) -> bool)
    ensures
        s.push(p).filter(pred) == if pred(p) {
            s.filter(pred).push(p)
        } else {
            s.filter(pred)
        },
{
    reveal(Seq::filter);
    assert(s.push(p).drop_last() == s);
}

/// Two predicates that agree on every element filter a sequence alike.
pub proof fn lemma_filter_ext<A>(s: Seq<A>, p: spec_fn(A) -> bool, q: spec_fn(A) -> bool)
    requires
        forall|a: A| #[trigger] p(a) == q(a),
    ensures
        s.filter(p) == s.filter(q),
    decreases s.len(),
{
    reveal(Seq::filter);
    if s.len() > 0 {
        lemma_filter_ext(s.drop_last(), p, q);
    }
}

/// Address of a cell in a grid: a fixed number of unsigned coordinates.
///
/// A position is fully described by its coordinates; the laws of the trait
/// state that two positions with equal coordinates are the same position.
pub trait GridPosition: Sized + Copy {
    /// Number of coordinates of a position.
    spec fn spec_dims() -> nat;

    /// The coordinates of the position, most significant first.
    spec fn spec_coords(&self) -> Seq<u32>;

    /// Every position has exactly `spec_dims()` coordinates, and there is at
    /// least one and at most eight of them.
    proof fn lemma_coords_len(&self)
        ensures
            self.spec_coords().len() == Self::spec_dims(),
            0 < Self::spec_dims() <= 8,
    ;

    /// A position is determined by its coordinates.
    proof fn lemma_coords_injective(a: Self, b: Self)
        requires
            a.spec_coords() == b.spec_coords(),
        ensures
            a == b,
    ;

    /// Number of coordinates of a position.
    fn dims() -> (r: usize)
        ensures
            r == Self::spec_dims(),
    ;

    /// The coordinate with the given index.
    fn coord(&self, idx: usize) -> (r: u32)
        requires
            idx < Self::spec_dims(),
        ensures
            r == self.spec_coords()[idx as int],
    ;

    /// Creates the position from a slice which holds exactly its coordinates.
    fn from_slice(slice: &[u32]) -> (r: Self)
        requires
            slice@.len() == Self::spec_dims(),
        ensures
            r.spec_coords() == slice@,
    ;

    /// Whether two positions are the same position.
    fn same(&self, other: &Self) -> (r: bool)
        ensures
            r == (*self == *other),
    ;

    /// The position that lies as far from this one as `by` lies from the
    /// origin: the sum of both, coordinate by coordinate.
    fn translated(&self, by: &Self) -> (r: Self)
        requires
            spec_can_translate(self.spec_coords(), by.spec_coords()),
        ensures
            r.spec_coords() == spec_translated(self.spec_coords(), by.spec_coords()),
    ;

    /// All positions in the axis-aligned box spanned by the two corners, both
    /// corners included.
    fn generate_rect_area(a: &Self, b: &Self) -> (r: Vec<Self>)
        requires
            spec_box_count(a.spec_coords(), b.spec_coords(), Self::spec_dims() as int) <= usize::MAX,
        ensures
            r@.len() == spec_box_count(a.spec_coords(), b.spec_coords(), Self::spec_dims() as int),
            forall|p: Self|
                r@.contains(p) <==> spec_in_box(a.spec_coords(), b.spec_coords(), p.spec_coords()),
            forall|i: int, j: int|
                0 <= i < j < r@.len() ==> spec_lex_less(
                    (#[trigger] r@[i]).spec_coords(),
                    (#[trigger] r@[j]).spec_coords(),
                ),
    ;
}

/// Checks whether the Manhattan distance between two positions is at most
/// `range`.
pub fn in_range<P: GridPosition>(a: &P, b: &P, range: u32) -> (r: bool)
    ensures
        r == (spec_distance(a.spec_coords(), b.spec_coords()) <= range),
{
    let n: usize = P::dims();
    let mut distance: u64 = 0;
    let mut i: usize = 0;
    proof {
        a.lemma_coords_len();
        b.lemma_coords_len();
    }
    while i < n
        invariant
            0 <= i <= n,
            n == P::spec_dims(),
            n <= 8,
            a.spec_coords().len() == n,
            b.spec_coords().len() == n,
            distance == spec_distance_prefix(a.spec_coords(), b.spec_coords(), i as int),
        decreases n - i,
    {
        let ca: u32 = a.coord(i);
        let cb: u32 = b.coord(i);
        let diff: u32 = if ca >= cb {
            ca - cb
        } else {
            cb - ca
        };
        proof {
            lemma_distance_prefix_bounds(a.spec_coords(), b.spec_coords(), i as int);
            assert(i * 0xffff_ffff <= 8 * 0xffff_ffff) by (nonlinear_arith)
                requires
                    i <= 8,
            ;
        }
        distance = distance + diff as u64;
        i = i + 1;
    }
    distance <= range as u64
}

/// Removes from `pos` every position that occurs in `to_filter`, keeping
/// the order of the others.
pub fn filter_positions<P: GridPosition>(pos: &mut Vec<P>, to_filter: &[P])
    ensures
        final(pos)@ == spec_without(old(pos)@, to_filter@),
{
    let mut out: Vec<P> = Vec::new();
    let mut i: usize = 0;
    let n: usize = pos.len();
    while i < n
        invariant
            0 <= i <= n,
            n == pos@.len(),
            pos@ == old(pos)@,
            out@ == spec_without(pos@.take(i as int), to_filter@),
        decreases n - i,
    {
        let p: P = pos[i];
        let mut found: bool = false;
        let mut j: usize = 0;
        while j < to_filter.len()
            invariant
                0 <= j <= to_filter@.len(),
                found == to_filter@.take(j as int).contains(p),
            decreases to_filter@.len() - j,
        {
            if p.same(&to_filter[j]) {
                found = true;
            }
            proof {
                let t0 = to_filter@.take(j as int);
                let t1 = to_filter@.take(j as int + 1);
                assert(t1 == t0.push(to_filter@[j as int]));
                if t0.contains(p) {
                    let k = choose|k: int| 0 <= k < t0.len() && t0[k] == p;
                    assert(t1[k] == p);
                }
                if to_filter@[j as int] == p {
                    assert(t1[j as int] == p);
                }
            }
            j = j + 1;
        }
        proof {
            assert(to_filter@.take(to_filter@.len() as int) == to_filter@);
            let s0 = pos@.take(i as int);
            let s1 = pos@.take(i as int + 1);
            assert(s1 == s0.push(p));
            lemma_filter_push(s0, p, |q: P| !to_filter@.contains(q));
        }
        if !found {
            out.push(p);
        }
        i = i + 1;
    }
    proof {
        assert(pos@.take(n as int) == pos@);
    }
    *pos = out;
}

/// Lexicographic order of coordinate sequences of equal length: the first
/// coordinate in which the two differ is smaller in `a`.
pub open spec fn spec_lex_less(a: Seq<u32>, b: Seq<u32>) -> bool {
    exists|k: int|
        0 <= k < a.len() && #[trigger] a[k] < b[k] && forall|i: int|
            0 <= i < k ==> #[trigger] a[i] == b[i]
}

/// Of two coordinate sequences of equal length that differ in one of their
/// first `n` coordinates, one is less than the other.
pub proof fn lemma_lex_total(a: Seq<u32>, b: Seq<u32>, n: int)
    requires
        a.len() == b.len(),
        0 <= n <= a.len(),
    ensures
        (forall|i: int| 0 <= i < n ==> a[i] == b[i]) || spec_lex_less(a, b) || spec_lex_less(b, a),
    decreases n,
{
    if n > 0 {
        lemma_lex_total(a, b, n - 1);
        if !spec_lex_less(a, b) && !spec_lex_less(b, a) {
            if a[n - 1] < b[n - 1] {
                assert(a[n - 1] < b[n - 1] && forall|i: int| 0 <= i < n - 1 ==> a[i] == b[i]);
            } else if b[n - 1] < a[n - 1] {
                assert(b[n - 1] < a[n - 1] && forall|i: int| 0 <= i < n - 1 ==> b[i] == a[i]);
            }
        }
    }
}

/// The lexicographic order is transitive, and nothing is less than itself.
pub proof fn lemma_lex_transitive(a: Seq<u32>, b: Seq<u32>, c: Seq<u32>)
    requires
        a.len() == b.len(),
        b.len() == c.len(),
    ensures
        !spec_lex_less(a, a),
        spec_lex_less(a, b) && spec_lex_less(b, c) ==> spec_lex_less(a, c),
        spec_lex_less(a, b) ==> !spec_lex_less(b, a),
{
    if spec_lex_less(a, b) && spec_lex_less(b, c) {
        let k = choose|k: int|
            0 <= k < a.len() && #[trigger] a[k] < b[k] && forall|i: int|
                0 <= i < k ==> #[trigger] a[i] == b[i];
        let m = choose|m: int|
            0 <= m < b.len() && #[trigger] b[m] < c[m] && forall|i: int|
                0 <= i < m ==> #[trigger] b[i] == c[i];
        let first = if k <= m {
            k
        } else {
            m
        };
        assert(a[first] < c[first] && forall|i: int| 0 <= i < first ==> #[trigger] a[i] == c[i]);
    }
    if spec_lex_less(a, b) && spec_lex_less(b, a) {
        let k = choose|k: int|
            0 <= k < a.len() && #[trigger] a[k] < b[k] && forall|i: int|
                0 <= i < k ==> #[trigger] a[i] == b[i];
        let m = choose|m: int|
            0 <= m < b.len() && #[trigger] b[m] < a[m] && forall|i: int|
                0 <= i < m ==> #[trigger] b[i] == a[i];
        if k < m {
            assert(b[k] == a[k]);
        } else if m < k {
            assert(a[m] == b[m]);
        }
    }
}

/// Whether `a` comes before `b` in the lexicographic order of the
/// coordinates.
pub fn lex_less<P: GridPosition>(a: &P, b: &P) -> (r: bool)
    ensures
        r == spec_lex_less(a.spec_coords(), b.spec_coords()),
{
    proof {
        a.lemma_coords_len();
        b.lemma_coords_len();
    }
    let n: usize = P::dims();
    let mut i: usize = 0;
    while i < n
        invariant
            0 <= i <= n,
            n == P::spec_dims(),
            a.spec_coords().len() == n,
            b.spec_coords().len() == n,
            forall|k: int| 0 <= k < i ==> a.spec_coords()[k] == b.spec_coords()[k],
        decreases n - i,
    {
        let x: u32 = a.coord(i);
        let y: u32 = b.coord(i);
        if x < y {
            proof {
                assert(a.spec_coords()[i as int] < b.spec_coords()[i as int]);
            }
            return true;
        }
        if y < x {
            proof {
                if spec_lex_less(a.spec_coords(), b.spec_coords()) {
                    let k = choose|k: int|
                        0 <= k < a.spec_coords().len() && #[trigger] a.spec_coords()[k]
                            < b.spec_coords()[k] && forall|j: int|
                            0 <= j < k ==> #[trigger] a.spec_coords()[j] == b.spec_coords()[j];
                    if k > i {
                        assert(a.spec_coords()[i as int] == b.spec_coords()[i as int]);
                    }
                }
            }
            return false;
        }
        i = i + 1;
    }
    proof {
        if spec_lex_less(a.spec_coords(), b.spec_coords()) {
            let k = choose|k: int|
                0 <= k < a.spec_coords().len() && #[trigger] a.spec_coords()[k] < b.spec_coords()[k]
                    && forall|j: int|
                    0 <= j < k ==> #[trigger] a.spec_coords()[j] == b.spec_coords()[j];
            assert(a.spec_coords()[k] == b.spec_coords()[k]);
        }
    }
    false
}

/// Whether the coordinates `a` and `b` can be added without leaving the
/// range of a coordinate.
pub open spec fn spec_can_translate(a: Seq<u32>, b: Seq<u32>) -> bool {
    forall|i: int| 0 <= i < a.len() ==> #[trigger] a[i] + b[i] <= u32::MAX
}

/// The sums of the coordinates `a` and `b`, coordinate by coordinate.
pub open spec fn spec_translated(a: Seq<u32>, b: Seq<u32>) -> Seq<u32> {
    Seq::new(a.len(), |i: int| (a[i] + b[i]) as u32)
}

/// Whether the coordinates `p` lie, coordinate by coordinate, between the
/// corners `a` and `b`.
pub open spec fn spec_in_box(a: Seq<u32>, b: Seq<u32>, p: Seq<u32>) -> bool {
    &&& p.len() == a.len()
    &&& forall|i: int|
        0 <= i < a.len() ==> spec_min(a[i], b[i]) <= #[trigger] p[i] <= spec_max(a[i], b[i])
}

/// The smaller of two coordinates.
pub open spec fn spec_min(a: u32, b: u32) -> u32 {
    if a <= b {
        a
    } else {
        b
    }
}

/// The larger of two coordinates.
pub open spec fn spec_max(a: u32, b: u32) -> u32 {
    if a >= b {
        a
    } else {
        b
    }
}

/// Number of positions in the box spanned by the first `n` coordinates of the
/// two corners.
pub open spec fn spec_box_count(a: Seq<u32>, b: Seq<u32>, n: int) -> int
    decreases n,
{
    if n <= 0 {
        1
    } else {
        spec_box_count(a, b, n - 1) * (spec_max(a[n - 1], b[n - 1]) - spec_min(a[n - 1], b[n - 1]) + 1)
    }
}

} // verus!
