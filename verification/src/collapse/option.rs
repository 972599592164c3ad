//! Options of a cell: their weights and the ways in which a cell can still
//! become each of them.

use vstd::prelude::*;
use core::marker::PhantomData;
use crate::collapse::entropy::ENTROPY_SCALE;
use crate::collapse::entropy::log2_scaled;
use crate::collapse::entropy::spec_weight_log;
use crate::dimension::Dimensionality;
use crate::direction::Direction;

verus! {

/// Weight of an option, or the sum of the weights of several options: the
/// count itself, and the count multiplied by its logarithm in units of
/// entropy.
#[derive(Debug, Clone, Copy, PartialEq, Eq, Structural)]
pub struct OptionWeights {
    pub count: u32,
    pub weight_log: u64,
}

impl OptionWeights {
    /// Weight of an option that has been counted `option_weight` times.
    pub fn new(option_weight: u32) -> (r: Self)
        ensures
            r.count == option_weight,
            r.weight_log == spec_weight_log(option_weight as nat),
    {
        let log: u64 = log2_scaled(option_weight);
        proof {
            assert(option_weight * log <= 0xffff_ffff * (32 * 100_000)) by (nonlinear_arith)
                requires
                    option_weight <= 0xffff_ffff,
                    log < 32 * 100_000,
            ;
        }
        Self { count: option_weight, weight_log: option_weight as u64 * log }
    }

    /// The weight of no option at all.
    pub fn zero() -> (r: Self)
        ensures
            r.count == 0,
            r.weight_log == 0,
    {
        Self { count: 0, weight_log: 0 }
    }
}

/// For every option, the number of ways in which a cell can still become that
/// option, direction by direction.
///
/// The count of an option in a direction is the number of options that the
/// neighbour in that direction can still become and that permit the option
/// beside them. An option whose count has reached zero in any direction is
/// impossible for the cell; all its counts are then zero.
pub struct WaysToBeOption<D: Dimensionality> {
    pub table: Vec<Vec<usize>>,
    pub dimensionality: PhantomData<D>,
}

/// Ways to be an option in a grid of two dimensions.
pub type WaysToBeOption2D = WaysToBeOption<crate::two_d::TwoDim>;

/// Ways to be an option in a grid of three dimensions.
pub type WaysToBeOption3D = WaysToBeOption<crate::three_d::ThreeDim>;

/// Whether all counts of a row are zero.
pub open spec fn spec_row_zero(row: Seq<usize>) -> bool {
    forall|d: int| 0 <= d < row.len() ==> row[d] == 0
}

/// Whether all counts of a row are positive.
pub open spec fn spec_row_positive(row: Seq<usize>) -> bool {
    forall|d: int| 0 <= d < row.len() ==> row[d] > 0
}

/// Number of the first `n` rows that are not zero in their first count.
pub open spec fn spec_count_possible(rows: Seq<Vec<usize>>, n: int) -> int
    decreases n,
{
    if n <= 0 {
        0
    } else {
        spec_count_possible(rows, n - 1) + if rows[n - 1]@[0] != 0 {
            1int
        } else {
            0int
        }
    }
}

/// Sum of the counts of those of the first `n` options whose row is not zero
/// in its first count.
pub open spec fn spec_weight_sum(rows: Seq<Vec<usize>>, weights: Seq<OptionWeights>, n: int) -> int
    decreases n,
{
    if n <= 0 {
        0
    } else {
        spec_weight_sum(rows, weights, n - 1) + if rows[n - 1]@[0] != 0 {
            weights[n - 1].count as int
        } else {
            0int
        }
    }
}

/// Sum of the weighted logarithms of those of the first `n` options whose row
/// is not zero in its first count.
pub open spec fn spec_weight_log_sum(rows: Seq<Vec<usize>>, weights: Seq<OptionWeights>, n: int) -> int
    decreases n,
{
    if n <= 0 {
        0
    } else {
        spec_weight_log_sum(rows, weights, n - 1) + if rows[n - 1]@[0] != 0 {
            weights[n - 1].weight_log as int
        } else {
            0int
        }
    }
}

/// Sum of the counts of the first `n` weights.
pub open spec fn spec_total_weight(weights: Seq<OptionWeights>, n: int) -> int
    decreases n,
{
    if n <= 0 {
        0
    } else {
        spec_total_weight(weights, n - 1) + weights[n - 1].count
    }
}

/// The sums over the possible options are bounded by the sums over all
/// options, and do not depend on rows past the first `n`.
pub proof fn lemma_sums_bounded(rows: Seq<Vec<usize>>, weights: Seq<OptionWeights>, n: int)
    requires
        0 <= n <= weights.len(),
        forall|i: int| 0 <= i < n ==> (#[trigger] weights[i]).weight_log == spec_weight_log(weights[i].count as nat),
    ensures
        0 <= spec_count_possible(rows, n) <= n,
        0 <= spec_weight_sum(rows, weights, n) <= spec_total_weight(weights, n),
        0 <= spec_weight_log_sum(rows, weights, n) <= spec_total_weight(weights, n) * (32
            * ENTROPY_SCALE),
    decreases n,
{
    if n > 0 {
        lemma_sums_bounded(rows, weights, n - 1);
        let w = weights[n - 1];
        crate::collapse::entropy::lemma_log2_scaled_bound(w.count as nat);
        let t = spec_total_weight(weights, n - 1);
        assert(w.count * spec_log2_scaled_of(w.count) <= w.count * (32 * ENTROPY_SCALE)) by (nonlinear_arith)
            requires
                spec_log2_scaled_of(w.count) < 32 * ENTROPY_SCALE,
                w.count >= 0,
        ;
        assert(t * (32 * ENTROPY_SCALE) + w.count * (32 * ENTROPY_SCALE) == (t + w.count) * (32
            * ENTROPY_SCALE)) by (nonlinear_arith);
    }
}

/// The logarithm in units of a count.
pub open spec fn spec_log2_scaled_of(count: u32) -> nat {
    crate::collapse::entropy::spec_log2_scaled(count as nat)
}

/// Two tables that agree in the first count of each of the first `n` rows
/// have the same sums over them.
pub proof fn lemma_sums_same(
    a: Seq<Vec<usize>>,
    b: Seq<Vec<usize>>,
    weights: Seq<OptionWeights>,
    n: int,
)
    requires
        forall|i: int| 0 <= i < n ==> ((#[trigger] a[i])@[0] != 0) == (b[i]@[0] != 0),
    ensures
        spec_count_possible(a, n) == spec_count_possible(b, n),
        spec_weight_sum(a, weights, n) == spec_weight_sum(b, weights, n),
        spec_weight_log_sum(a, weights, n) == spec_weight_log_sum(b, weights, n),
    decreases n,
{
    if n > 0 {
        lemma_sums_same(a, b, weights, n - 1);
    }
}

/// Where an option that was possible in table `a` is impossible in table `b`
/// and every other option is as possible in the one as in the other, the sums
/// over `b` are those over `a` less the share of that option.
pub proof fn lemma_sums_without(
    a: Seq<Vec<usize>>,
    b: Seq<Vec<usize>>,
    weights: Seq<OptionWeights>,
    n: int,
    option: int,
)
    requires
        0 <= option,
        a[option]@[0] != 0,
        b[option]@[0] == 0,
        forall|i: int|
            0 <= i < n && i != option ==> ((#[trigger] a[i])@[0] != 0) == (b[i]@[0] != 0),
    ensures
        spec_count_possible(b, n) == spec_count_possible(a, n) - if option < n {
            1int
        } else {
            0int
        },
        spec_weight_sum(b, weights, n) == spec_weight_sum(a, weights, n) - if option < n {
            weights[option].count as int
        } else {
            0int
        },
        spec_weight_log_sum(b, weights, n) == spec_weight_log_sum(a, weights, n) - if option < n {
            weights[option].weight_log as int
        } else {
            0int
        },
    decreases n,
{
    if n > 0 {
        lemma_sums_without(a, b, weights, n - 1, option);
    }
}

impl<D: Dimensionality> WaysToBeOption<D> {
    /// Every row holds one count for each direction.
    pub open spec fn wf(&self) -> bool {
        forall|i: int|
            0 <= i < self.table@.len() ==> (#[trigger] self.table@[i])@.len() == D::Dir::spec_count()
    }

    /// The counts of the table: one row for each option, one count in each
    /// row for each direction.
    pub open spec fn spec_rows(&self) -> Seq<Seq<usize>> {
        Seq::new(self.table@.len(), |i: int| self.table@[i]@)
    }

    /// Number of ways to be the option from the direction with the given
    /// index.
    pub open spec fn spec_ways(&self, option_idx: int, direction: int) -> usize {
        self.table@[option_idx]@[direction]
    }

    /// An option is possible as long as its count in the first direction
    /// is not zero.
    pub open spec fn spec_possible(&self, option_idx: int) -> bool {
        self.table@[option_idx]@[0] != 0
    }

    /// Every row is all zero or all positive.
    pub open spec fn spec_uniform(&self) -> bool {
        forall|i: int|
            0 <= i < self.table@.len() ==> spec_row_zero((#[trigger] self.table@[i])@)
                || spec_row_positive(self.table@[i]@)
    }

    /// The possible options, in increasing order.
    pub open spec fn spec_possible_options(&self) -> Seq<int> {
        Seq::new(self.table@.len(), |i: int| i).filter(|i: int| self.spec_possible(i))
    }

    /// No count of `self` is above the matching count of `other`.
    pub open spec fn spec_not_above(&self, other: &Self) -> bool {
        &&& self.table@.len() == other.table@.len()
        &&& forall|i: int, d: int|
            0 <= i < self.table@.len() && 0 <= d < D::Dir::spec_count() ==> #[trigger] self.spec_ways(
                i,
                d,
            ) <= other.spec_ways(i, d)
    }

    /// Creates a table without options.
    pub fn new() -> (r: Self)
        ensures
            r.wf(),
            r.table@.len() == 0,
    {
        Self { table: Vec::new(), dimensionality: PhantomData }
    }

    /// Number of options of the table.
    pub fn len(&self) -> (r: usize)
        ensures
            r == self.table@.len(),
    {
        self.table.len()
    }

    /// Number of ways to be the option from the direction.
    pub fn ways(&self, option_idx: usize, direction: D::Dir) -> (r: usize)
        requires
            self.wf(),
            option_idx < self.table@.len(),
        ensures
            r == self.spec_ways(option_idx as int, direction.spec_idx() as int),
    {
        proof {
            direction.lemma_idx();
        }
        self.table[option_idx][direction.as_idx()]
    }

    /// Whether the cell can still become the option.
    pub fn is_possible(&self, option_idx: usize) -> (r: bool)
        requires
            self.wf(),
            option_idx < self.table@.len(),
        ensures
            r == self.spec_possible(option_idx as int),
    {
        proof {
            D::Dir::spec_from_idx(0).lemma_idx();
        }
        self.table[option_idx][0] != 0
    }

    /// A copy of the table.
    pub fn clone(&self) -> (r: Self)
        ensures
            r.spec_rows() == self.spec_rows(),
            r.table@.len() == self.table@.len(),
            forall|i: int| 0 <= i < self.table@.len() ==> (#[trigger] r.table@[i])@ == self.table@[i]@,
    {
        let mut table: Vec<Vec<usize>> = Vec::new();
        let mut i: usize = 0;
        while i < self.table.len()
            invariant
                0 <= i <= self.table@.len(),
                table@.len() == i,
                forall|k: int| 0 <= k < i ==> (#[trigger] table@[k])@ == self.table@[k]@,
            decreases self.table@.len() - i,
        {
            let mut row: Vec<usize> = Vec::new();
            let mut d: usize = 0;
            while d < self.table[i].len()
                invariant
                    0 <= i < self.table@.len(),
                    0 <= d <= self.table@[i as int]@.len(),
                    row@ == self.table@[i as int]@.take(d as int),
                decreases self.table@[i as int]@.len() - d,
            {
                row.push(self.table[i][d]);
                proof {
                    assert(self.table@[i as int]@.take(d as int + 1) == self.table@[i as int]@.take(
                        d as int,
                    ).push(self.table@[i as int]@[d as int]));
                }
                d = d + 1;
            }
            proof {
                assert(self.table@[i as int]@.take(self.table@[i as int]@.len() as int)
                    == self.table@[i as int]@);
            }
            table.push(row);
            i = i + 1;
        }
        let r = Self { table, dimensionality: PhantomData };
        proof {
            assert(r.spec_rows() =~= self.spec_rows());
        }
        r
    }

    /// Sets every count of the option to zero.
    pub fn clear_row(&mut self, option_idx: usize)
        requires
            old(self).wf(),
            option_idx < old(self).table@.len(),
        ensures
            final(self).wf(),
            final(self).table@.len() == old(self).table@.len(),
            spec_row_zero(final(self).table@[option_idx as int]@),
            forall|i: int|
                0 <= i < old(self).table@.len() && i != option_idx ==> final(self).table@[i] == old(self).table@[i],
    {
        let n: usize = self.table[option_idx].len();
        let mut d: usize = 0;
        while d < n
            invariant
                0 <= d <= n,
                option_idx < self.table@.len(),
                self.table@.len() == old(self).table@.len(),
                n == self.table@[option_idx as int]@.len(),
                n == old(self).table@[option_idx as int]@.len(),
                forall|k: int| 0 <= k < d ==> self.table@[option_idx as int]@[k] == 0,
                forall|i: int|
                    0 <= i < old(self).table@.len() && i != option_idx ==> self.table@[i] == old(self).table@[i],
            decreases n - d,
        {
            self.table[option_idx][d] = 0;
            d = d + 1;
        }
    }

    /// Takes away one way to be the option from the direction.
    ///
    /// Nothing changes where no way was left. Where the last way is taken
    /// away, every count of the option is set to zero and `true` is
    /// returned: the option has become impossible for the cell.
    pub fn decrement(&mut self, option_idx: usize, direction: D::Dir) -> (r: bool)
        requires
            old(self).wf(),
            option_idx < old(self).table@.len(),
        ensures
            final(self).wf(),
            final(self).table@.len() == old(self).table@.len(),
            forall|i: int|
                0 <= i < old(self).table@.len() && i != option_idx ==> final(self).table@[i] == old(self).table@[i],
            r == (old(self).spec_ways(option_idx as int, direction.spec_idx() as int) == 1),
            r ==> spec_row_zero(final(self).table@[option_idx as int]@),
            !r ==> final(self).table@[option_idx as int]@ == old(self).table@[option_idx as int]@.update(
                direction.spec_idx() as int,
                if old(self).spec_ways(option_idx as int, direction.spec_idx() as int) == 0 {
                    0usize
                } else {
                    (old(self).spec_ways(option_idx as int, direction.spec_idx() as int) - 1) as usize
                },
            ),
    {
        proof {
            direction.lemma_idx();
        }
        let d: usize = direction.as_idx();
        let current: usize = self.table[option_idx][d];
        if current == 0 {
            proof {
                assert(self.table@[option_idx as int]@ =~= old(self).table@[option_idx as int]@.update(
                    d as int,
                    0usize,
                ));
            }
            return false;
        }
        self.table[option_idx][d] = current - 1;
        if current - 1 > 0 {
            return false;
        }
        self.clear_row(option_idx);
        true
    }

    /// The options that the cell can still become, in increasing order.
    pub fn iter_possible(&self) -> (r: Vec<usize>)
        requires
            self.wf(),
        ensures
            r@.map_values(|i: usize| i as int) == self.spec_possible_options(),
    {
        let mut out: Vec<usize> = Vec::new();
        let n: usize = self.table.len();
        let mut i: usize = 0;
        let ghost pred = |i: int| self.spec_possible(i);
        let ghost cast = |i: usize| i as int;
        proof {
            assert(Seq::new(0nat, |i: int| i).filter(pred) =~= Seq::<int>::empty()) by {
                reveal(Seq::filter);
            }
            assert(out@.map_values(cast) =~= Seq::<int>::empty());
        }
        while i < n
            invariant
                self.wf(),
                0 <= i <= n,
                n == self.table@.len(),
                pred == |i: int| self.spec_possible(i),
                cast == |i: usize| i as int,
                out@.map_values(cast) == Seq::new(i as nat, |i: int| i).filter(pred),
            decreases n - i,
        {
            proof {
                let s0 = Seq::new(i as nat, |i: int| i);
                let s1 = Seq::new((i + 1) as nat, |i: int| i);
                assert(s1 =~= s0.push(i as int));
                crate::position::lemma_filter_push(s0, i as int, pred);
                crate::map::lemma_map_values_push(out@, i, cast);
            }
            if self.is_possible(i) {
                out.push(i);
            }
            i = i + 1;
        }
        out
    }

    /// Makes the option impossible: sets every count of the option to zero.
    /// Returns whether the option was possible.
    pub fn purge_option(&mut self, option_idx: usize) -> (r: bool)
        requires
            old(self).wf(),
            old(self).spec_uniform(),
            option_idx < old(self).table@.len(),
        ensures
            final(self).wf(),
            final(self).spec_uniform(),
            final(self).table@.len() == old(self).table@.len(),
            r == old(self).spec_possible(option_idx as int),
            spec_row_zero(final(self).table@[option_idx as int]@),
            forall|i: int|
                0 <= i < old(self).table@.len() && i != option_idx ==> final(self).table@[i] == old(self).table@[i],
    {
        let possible: bool = self.is_possible(option_idx);
        self.clear_row(option_idx);
        possible
    }

    /// Makes every option impossible that does not occur in `options`.
    pub fn purge_others(&mut self, options: &[usize])
        requires
            old(self).wf(),
        ensures
            final(self).wf(),
            final(self).table@.len() == old(self).table@.len(),
            forall|i: int|
                0 <= i < old(self).table@.len() && options@.contains(i as usize) ==> final(self).table@[i] == old(self).table@[i],
            forall|i: int|
                0 <= i < old(self).table@.len() && !options@.contains(i as usize) ==> spec_row_zero(
                    (#[trigger] final(self).table@[i])@,
                ),
    {
        let n: usize = self.table.len();
        let mut i: usize = 0;
        while i < n
            invariant
                self.wf(),
                0 <= i <= n,
                n == self.table@.len(),
                n == old(self).table@.len(),
                forall|k: int| i <= k < n ==> self.table@[k] == old(self).table@[k],
                forall|k: int|
                    0 <= k < i && options@.contains(k as usize) ==> self.table@[k] == old(self).table@[k],
                forall|k: int|
                    0 <= k < i && !options@.contains(k as usize) ==> spec_row_zero(
                        (#[trigger] self.table@[k])@,
                    ),
            decreases n - i,
        {
            let mut keep: bool = false;
            let mut j: usize = 0;
            while j < options.len()
                invariant
                    0 <= j <= options@.len(),
                    keep == options@.take(j as int).contains(i),
                decreases options@.len() - j,
            {
                proof {
                    let t0 = options@.take(j as int);
                    let t1 = options@.take(j as int + 1);
                    assert(t1 == t0.push(options@[j as int]));
                    if t0.contains(i) {
                        let k = choose|k: int| 0 <= k < t0.len() && t0[k] == i;
                        assert(t1[k] == i);
                    }
                    if options@[j as int] == i {
                        assert(t1[j as int] == i);
                    }
                }
                if options[j] == i {
                    keep = true;
                }
                j = j + 1;
            }
            proof {
                assert(options@.take(options@.len() as int) == options@);
            }
            if !keep {
                self.clear_row(i);
            }
            i = i + 1;
        }
    }

    /// Adds an option with the given counts, one for each direction.
    pub fn insert_from_slice(&mut self, slice: &[usize])
        requires
            old(self).wf(),
            slice@.len() == D::Dir::spec_count(),
        ensures
            final(self).wf(),
            final(self).table@.len() == old(self).table@.len() + 1,
            final(self).table@[old(self).table@.len() as int]@ == slice@,
            forall|i: int| 0 <= i < old(self).table@.len() ==> final(self).table@[i] == old(self).table@[i],
    {
        let mut row: Vec<usize> = Vec::new();
        let mut d: usize = 0;
        while d < slice.len()
            invariant
                0 <= d <= slice@.len(),
                row@ == slice@.take(d as int),
            decreases slice@.len() - d,
        {
            row.push(slice[d]);
            proof {
                assert(slice@.take(d as int + 1) == slice@.take(d as int).push(slice@[d as int]));
            }
            d = d + 1;
        }
        proof {
            assert(slice@.take(slice@.len() as int) == slice@);
        }
        self.table.push(row);
    }

    /// Adds an option that is impossible: all its counts are zero.
    pub fn insert_empty(&mut self)
        requires
            old(self).wf(),
        ensures
            final(self).wf(),
            final(self).table@.len() == old(self).table@.len() + 1,
            spec_row_zero(final(self).table@[old(self).table@.len() as int]@),
            forall|i: int| 0 <= i < old(self).table@.len() ==> final(self).table@[i] == old(self).table@[i],
    {
        let n: usize = D::Dir::count();
        let mut row: Vec<usize> = Vec::new();
        let mut d: usize = 0;
        while d < n
            invariant
                0 <= d <= n,
                row@.len() == d,
                forall|k: int| 0 <= k < d ==> row@[k] == 0,
            decreases n - d,
        {
            row.push(0);
            d = d + 1;
        }
        self.table.push(row);
    }
}

} // verus!
