//! Collapsed and collapsible tiles.

use vstd::prelude::*;
use rand::rngs::StdRng;
use crate::collapse::entropy::NOISE_RANGE;
use crate::collapse::entropy::entropy;
use crate::collapse::entropy::spec_entropy;
use crate::collapse::option::OptionWeights;
use crate::collapse::option::WaysToBeOption;
use crate::collapse::option::lemma_sums_bounded;
use crate::collapse::option::lemma_sums_same;
use crate::collapse::option::lemma_sums_without;
use crate::collapse::option::spec_count_possible;
use crate::collapse::option::spec_row_zero;
use crate::collapse::option::spec_total_weight;
use crate::collapse::option::spec_weight_log_sum;
use crate::collapse::option::spec_weight_sum;
use crate::collapse::random::gen_range_u32;
use crate::collapse::random::sample_uniform_u8;
use crate::collapse::table::PerOptionData;
use crate::dimension::Dimensionality;
use crate::direction::Direction;
use crate::id::IdDefault;
use crate::id::TypedData;
use crate::tile::TileData;

verus! {

/// Tile data which holds the identifier of the type of a collapsed tile and
/// nothing else.
///
/// It is what a collapse starts from, where some tiles are given, and what
/// it ends in.
#[derive(Debug, Clone, Copy, PartialEq, Eq, Structural)]
pub struct CollapsedTileData {
    pub tile_type_id: u64,
}

impl TileData for CollapsedTileData {

}

impl TypedData for CollapsedTileData {
    open spec fn spec_tile_type_id(&self) -> u64 {
        self.tile_type_id
    }

    fn tile_type_id(&self) -> (r: u64) {
        self.tile_type_id
    }
}

impl IdDefault for CollapsedTileData {
    fn tile_type_default(tile_type_id: u64) -> (r: Self) {
        Self { tile_type_id }
    }
}

impl CollapsedTileData {
    /// A collapsed tile of the type.
    pub fn new(tile_type_id: u64) -> (r: Self)
        ensures
            r.tile_type_id == tile_type_id,
    {
        Self { tile_type_id }
    }
}

/// A cell of a grid that is being collapsed.
///
/// The cell is either collapsed to one option, or it still holds, for every
/// option, the ways in which it can become that option, together with the
/// number of options that it can still become, the sum of their weights, and
/// a small noise that decides between cells of equal entropy.
pub struct CollapsibleTile<D: Dimensionality> {
    pub collapsed_option: Option<usize>,
    pub num_options: usize,
    pub ways_to_be_option: WaysToBeOption<D>,
    pub weight: OptionWeights,
    pub entrophy_noise: u8,
}

/// Collapsible tile of a grid of two dimensions.
pub type CollapsibleTile2D = CollapsibleTile<crate::two_d::TwoDim>;

/// Collapsible tile of a grid of three dimensions.
pub type CollapsibleTile3D = CollapsibleTile<crate::three_d::ThreeDim>;

impl<D: Dimensionality> TileData for CollapsibleTile<D> {

}

impl<D: Dimensionality> CollapsibleTile<D> {
    /// Whether the cell is collapsed.
    pub open spec fn spec_is_collapsed(&self) -> bool {
        self.collapsed_option is Some
    }

    /// Whether the cell can still become the option.
    pub open spec fn spec_possible(&self, option_idx: int) -> bool {
        &&& self.collapsed_option is None
        &&& 0 <= option_idx < self.ways_to_be_option.table@.len()
        &&& self.ways_to_be_option.spec_possible(option_idx)
    }

    /// The cell is well-formed with respect to the table of options.
    ///
    /// A collapsed cell holds an option of the table, no ways, no remaining
    /// options and no weight. A cell that is not collapsed holds a row of
    /// ways for every option of the table; each row is all zero or all
    /// positive and nowhere above the row of an unconstrained cell; the
    /// number of remaining options is the number of rows that are not zero,
    /// and the weight is the sum of the weights of their options.
    pub open spec fn wf(&self, table: &PerOptionData<D>) -> bool {
        match self.collapsed_option {
            Some(option_idx) => {
                &&& option_idx < table.spec_option_count()
                &&& self.num_options == 0
                &&& self.weight.count == 0
                &&& self.weight.weight_log == 0
                &&& self.ways_to_be_option.table@.len() == 0
            },
            None => {
                &&& self.ways_to_be_option.wf()
                &&& self.ways_to_be_option.spec_uniform()
                &&& self.ways_to_be_option.spec_not_above(&table.ways_to_be_option)
                &&& self.ways_to_be_option.table@.len() == table.spec_option_count()
                &&& self.num_options == spec_count_possible(
                    self.ways_to_be_option.table@,
                    table.spec_option_count() as int,
                )
                &&& self.weight.count == spec_weight_sum(
                    self.ways_to_be_option.table@,
                    table.opt_with_weight@,
                    table.spec_option_count() as int,
                )
                &&& self.weight.weight_log == spec_weight_log_sum(
                    self.ways_to_be_option.table@,
                    table.opt_with_weight@,
                    table.spec_option_count() as int,
                )
                &&& self.entrophy_noise < NOISE_RANGE
            },
        }
    }

    /// Whether the cell is in the same state as `before` or further along:
    /// a collapsed cell has stayed as it was, and no count of ways of a cell
    /// that is not collapsed has grown.
    pub open spec fn spec_follows(&self, before: &Self) -> bool {
        match before.collapsed_option {
            Some(option_idx) => *self == *before,
            None => self.collapsed_option is None ==> self.ways_to_be_option.spec_not_above(
                &before.ways_to_be_option,
            ) && self.entrophy_noise == before.entrophy_noise,
        }
    }

    /// The entropy of the cell, in units.
    pub open spec fn spec_entrophy(&self) -> nat {
        spec_entropy(
            self.weight.count as nat,
            self.weight.weight_log as nat,
            self.entrophy_noise as nat,
        )
    }

    /// The options that the cell can still become, but for `chosen`; in
    /// increasing order.
    pub open spec fn spec_possible_except(&self, chosen: int) -> Seq<int> {
        Seq::new(self.ways_to_be_option.table@.len(), |i: int| i).filter(
            self.spec_is_possible_except(chosen),
        )
    }

    /// What it is to be an option that the cell can still become and
    /// that is not `chosen`.
    pub open spec fn spec_is_possible_except(&self, chosen: int) -> spec_fn(int) -> bool {
        |i: int| self.ways_to_be_option.spec_possible(i) && i != chosen
    }

    /// Whether `chosen` is the option that the random number `random`
    /// selects: the first option, in increasing order, at which the running
    /// total of the weights of the remaining options exceeds `random`.
    pub open spec fn spec_selects(&self, table: &PerOptionData<D>, random: u32, chosen: int) -> bool {
        &&& 0 <= chosen < self.ways_to_be_option.table@.len()
        &&& self.ways_to_be_option.spec_possible(chosen)
        &&& spec_weight_sum(self.ways_to_be_option.table@, table.opt_with_weight@, chosen) <= random
        &&& random < spec_weight_sum(self.ways_to_be_option.table@, table.opt_with_weight@, chosen + 1)
    }

    /// No cell believes an option possible that is impossible for every
    /// cell: an option with ways in a well-formed cell has ways in the table
    /// of options.
    pub proof fn lemma_possible_in_table(&self, table: &PerOptionData<D>, option_idx: int)
        requires
            self.wf(table),
            self.spec_possible(option_idx),
        ensures
            table.ways_to_be_option.spec_possible(option_idx),
    {
        D::Dir::spec_from_idx(0).lemma_idx();
        assert(self.ways_to_be_option.spec_ways(option_idx, 0) <= table.ways_to_be_option.spec_ways(
            option_idx,
            0,
        ));
    }

    /// A well-formed cell with remaining options has weight, and none without.
    pub proof fn lemma_weight_positive(&self, table: &PerOptionData<D>)
        requires
            table.wf(),
            self.wf(table),
            self.collapsed_option is None,
        ensures
            self.num_options > 0 <==> self.weight.count > 0,
            self.weight.count <= spec_total_weight(
                table.opt_with_weight@,
                table.spec_option_count() as int,
            ),
    {
        lemma_count_and_weight(
            self.ways_to_be_option.table@,
            table.opt_with_weight@,
            table.spec_option_count() as int,
        );
        lemma_sums_bounded(
            self.ways_to_be_option.table@,
            table.opt_with_weight@,
            table.spec_option_count() as int,
        );
    }

    /// Number of options that the cell can still become.
    pub fn num_compatible_options(&self) -> (r: usize)
        ensures
            r == self.num_options,
    {
        self.num_options
    }

    /// Number of options that the cell can still become.
    pub fn num_possible_options(&self) -> (r: usize)
        ensures
            r == self.num_options,
    {
        self.num_options
    }

    /// Whether the cell can still become any option.
    pub fn has_compatible_options(&self) -> (r: bool)
        ensures
            r == (self.num_options > 0),
    {
        self.num_options > 0
    }

    /// Whether the cell is collapsed.
    pub fn is_collapsed(&self) -> (r: bool)
        ensures
            r == self.spec_is_collapsed(),
    {
        self.collapsed_option.is_some()
    }

    /// The option to which the cell is collapsed, if it is.
    pub fn collapse_idx(&self) -> (r: Option<usize>)
        ensures
            r == self.collapsed_option,
    {
        self.collapsed_option
    }

    /// The ways in which the cell can become each option.
    pub fn ways_to_be_option(&self) -> (r: &WaysToBeOption<D>)
        ensures
            *r == self.ways_to_be_option,
    {
        &self.ways_to_be_option
    }

    /// Sum of the weights of the options that the cell can still become.
    pub fn weight_sum(&self) -> (r: u32)
        ensures
            r == self.weight.count,
    {
        self.weight.count
    }

    /// The entropy of the cell, in units.
    pub fn calc_entrophy(&self) -> (r: u64)
        ensures
            r == self.spec_entrophy(),
    {
        entropy(self.weight.count, self.weight.weight_log, self.entrophy_noise)
    }

    /// Creates a cell that is collapsed to the option.
    pub fn new_collapsed_data(option_idx: usize) -> (r: Self)
        ensures
            r.collapsed_option == Some(option_idx),
            r.num_options == 0,
            r.weight.count == 0,
            r.weight.weight_log == 0,
            r.ways_to_be_option.table@.len() == 0,
    {
        Self {
            collapsed_option: Some(option_idx),
            num_options: 0,
            ways_to_be_option: WaysToBeOption::new(),
            weight: OptionWeights::zero(),
            entrophy_noise: 0,
        }
    }

    /// Creates a cell that is not collapsed, from its parts.
    pub fn new_uncollapsed_tile(
        num_options: usize,
        ways_to_be_option: WaysToBeOption<D>,
        weight: OptionWeights,
        entrophy_noise: u8,
    ) -> (r: Self)
        ensures
            r.collapsed_option is None,
            r.num_options == num_options,
            r.ways_to_be_option == ways_to_be_option,
            r.weight == weight,
            r.entrophy_noise == entrophy_noise,
    {
        Self { collapsed_option: None, num_options, ways_to_be_option, weight, entrophy_noise }
    }

    /// Creates a cell that no neighbour has constrained yet: it can become
    /// every option that is possible at all.
    pub fn new_unconstrained(options_data: &PerOptionData<D>, entrophy_noise: u8) -> (r: Self)
        requires
            options_data.wf(),
            entrophy_noise < NOISE_RANGE,
        ensures
            r.wf(options_data),
            r.collapsed_option is None,
            r.entrophy_noise == entrophy_noise,
            r.num_options == options_data.possible_options_count,
            forall|i: int|
                0 <= i < options_data.spec_option_count() ==> (#[trigger] r.ways_to_be_option.table@[i])@
                    == options_data.ways_to_be_option.table@[i]@,
    {
        let ways: WaysToBeOption<D> = options_data.ways_to_be_option.clone();
        let weight: OptionWeights = Self::sum_possible_weights(options_data);
        proof {
            options_data.lemma_template_uniform();
            lemma_sums_same(
                ways.table@,
                options_data.ways_to_be_option.table@,
                options_data.opt_with_weight@,
                options_data.spec_option_count() as int,
            );
            assert(ways.spec_uniform()) by {
                assert forall|i: int| 0 <= i < ways.table@.len() implies spec_row_zero(
                    (#[trigger] ways.table@[i])@,
                ) || crate::collapse::option::spec_row_positive(ways.table@[i]@) by {
                    assert(ways.table@[i]@ == options_data.ways_to_be_option.table@[i]@);
                    assert(spec_row_zero(options_data.ways_to_be_option.table@[i]@)
                        || crate::collapse::option::spec_row_positive(
                        options_data.ways_to_be_option.table@[i]@,
                    ));
                }
            }
        }
        Self {
            collapsed_option: None,
            num_options: options_data.possible_options_count,
            ways_to_be_option: ways,
            weight,
            entrophy_noise,
        }
    }

    /// Sum of the weights of the options that are possible at all.
    pub fn sum_possible_weights(options_data: &PerOptionData<D>) -> (r: OptionWeights)
        requires
            options_data.wf(),
        ensures
            r.count == spec_weight_sum(
                options_data.ways_to_be_option.table@,
                options_data.opt_with_weight@,
                options_data.spec_option_count() as int,
            ),
            r.weight_log == spec_weight_log_sum(
                options_data.ways_to_be_option.table@,
                options_data.opt_with_weight@,
                options_data.spec_option_count() as int,
            ),
    {
        let n: usize = options_data.option_count();
        let mut count: u32 = 0;
        let mut weight_log: u64 = 0;
        let mut i: usize = 0;
        while i < n
            invariant
                options_data.wf(),
                0 <= i <= n,
                n == options_data.spec_option_count(),
                count == spec_weight_sum(
                    options_data.ways_to_be_option.table@,
                    options_data.opt_with_weight@,
                    i as int,
                ),
                weight_log == spec_weight_log_sum(
                    options_data.ways_to_be_option.table@,
                    options_data.opt_with_weight@,
                    i as int,
                ),
            decreases n - i,
        {
            proof {
                lemma_sums_bounded(
                    options_data.ways_to_be_option.table@,
                    options_data.opt_with_weight@,
                    i as int + 1,
                );
                lemma_total_weight_mono(options_data.opt_with_weight@, i as int + 1, n as int);
                assert(spec_total_weight(options_data.opt_with_weight@, i as int + 1) * (32 * 100_000)
                    <= 0xffff_ffff * (32 * 100_000)) by (nonlinear_arith)
                    requires
                        spec_total_weight(options_data.opt_with_weight@, i as int + 1) <= 0xffff_ffff,
                ;
            }
            if options_data.ways_to_be_option.is_possible(i) {
                let weights: OptionWeights = options_data.get_weights(i);
                count = count + weights.count;
                weight_log = weight_log + weights.weight_log;
            }
            i = i + 1;
        }
        OptionWeights { count, weight_log }
    }

    /// Creates one unconstrained cell without noise for each position.
    pub fn new_from_frequency(positions: &[D::Pos], options_data: &PerOptionData<D>) -> (r: Vec<
        (D::Pos, Self),
    >)
        requires
            options_data.wf(),
        ensures
            r@.len() == positions@.len(),
            forall|k: int|
                0 <= k < r@.len() ==> {
                    &&& (#[trigger] r@[k]).0 == positions@[k]
                    &&& r@[k].1.wf(options_data)
                    &&& r@[k].1.collapsed_option is None
                    &&& r@[k].1.entrophy_noise == 0
                    &&& r@[k].1.num_options == options_data.possible_options_count
                    &&& r@[k].1.ways_to_be_option.spec_rows()
                        == options_data.ways_to_be_option.spec_rows()
                },
    {
        let mut out: Vec<(D::Pos, Self)> = Vec::new();
        let mut i: usize = 0;
        while i < positions.len()
            invariant
                options_data.wf(),
                0 <= i <= positions@.len(),
                out@.len() == i,
                forall|k: int|
                    0 <= k < out@.len() ==> {
                        &&& (#[trigger] out@[k]).0 == positions@[k]
                        &&& out@[k].1.wf(options_data)
                        &&& out@[k].1.collapsed_option is None
                        &&& out@[k].1.entrophy_noise == 0
                        &&& out@[k].1.num_options == options_data.possible_options_count
                        &&& out@[k].1.ways_to_be_option.spec_rows()
                            == options_data.ways_to_be_option.spec_rows()
                    },
            decreases positions@.len() - i,
        {
            let cell: Self = Self::new_unconstrained(options_data, 0);
            proof {
                assert(cell.ways_to_be_option.spec_rows() =~= options_data.ways_to_be_option.spec_rows());
            }
            out.push((positions[i], cell));
            i = i + 1;
        }
        out
    }

    /// Creates one unconstrained cell for each position, each with a noise
    /// drawn at random.
    pub fn new_from_frequency_with_entrophy(
        rng: &mut StdRng,
        positions: &[D::Pos],
        options_data: &PerOptionData<D>,
    ) -> (r: Vec<(D::Pos, Self)>)
        requires
            options_data.wf(),
        ensures
            r@.len() == positions@.len(),
            forall|k: int|
                0 <= k < r@.len() ==> {
                    &&& (#[trigger] r@[k]).0 == positions@[k]
                    &&& r@[k].1.wf(options_data)
                    &&& r@[k].1.collapsed_option is None
                    &&& r@[k].1.num_options == options_data.possible_options_count
                    &&& r@[k].1.ways_to_be_option.spec_rows()
                        == options_data.ways_to_be_option.spec_rows()
                },
    {
        let mut out: Vec<(D::Pos, Self)> = Vec::new();
        let mut i: usize = 0;
        while i < positions.len()
            invariant
                options_data.wf(),
                0 <= i <= positions@.len(),
                out@.len() == i,
                forall|k: int|
                    0 <= k < out@.len() ==> {
                        &&& (#[trigger] out@[k]).0 == positions@[k]
                        &&& out@[k].1.wf(options_data)
                        &&& out@[k].1.collapsed_option is None
                        &&& out@[k].1.num_options == options_data.possible_options_count
                        &&& out@[k].1.ways_to_be_option.spec_rows()
                            == options_data.ways_to_be_option.spec_rows()
                    },
            decreases positions@.len() - i,
        {
            let noise: u8 = sample_uniform_u8(rng, 0, NOISE_RANGE);
            let cell: Self = Self::new_unconstrained(options_data, noise);
            proof {
                assert(cell.ways_to_be_option.spec_rows() =~= options_data.ways_to_be_option.spec_rows());
            }
            out.push((positions[i], cell));
            i = i + 1;
        }
        out
    }

    /// Takes away one way to be the option from the direction, and with the
    /// last way the option itself: the number of remaining options and the
    /// weight of the cell follow.
    ///
    /// Returns whether the option has become impossible by this.
    pub fn decrement_ways(&mut self, option_idx: usize, direction: D::Dir, table: &PerOptionData<D>) -> (r:
        bool)
        requires
            table.wf(),
            old(self).wf(table),
            old(self).collapsed_option is None,
            option_idx < table.spec_option_count(),
        ensures
            final(self).wf(table),
            final(self).collapsed_option is None,
            final(self).spec_follows(old(self)),
            final(self).entrophy_noise == old(self).entrophy_noise,
            r == (old(self).ways_to_be_option.spec_ways(
                option_idx as int,
                direction.spec_idx() as int,
            ) == 1),
            r ==> final(self).num_options == old(self).num_options - 1,
            !r ==> final(self).num_options == old(self).num_options,
            !r ==> final(self).weight == old(self).weight,
            forall|i: int|
                0 <= i < table.spec_option_count() && i != option_idx ==> final(self).ways_to_be_option.table@[i] == old(self).ways_to_be_option.table@[i],
            final(self).ways_to_be_option.spec_possible(option_idx as int) == (old(self).ways_to_be_option.spec_possible(option_idx as int) && !r),
            !r ==> final(self).ways_to_be_option.table@[option_idx as int]@ == old(self).ways_to_be_option.table@[option_idx as int]@.update(
                direction.spec_idx() as int,
                if old(self).ways_to_be_option.spec_ways(option_idx as int, direction.spec_idx() as int)
                    == 0 {
                    0usize
                } else {
                    (old(self).ways_to_be_option.spec_ways(
                        option_idx as int,
                        direction.spec_idx() as int,
                    ) - 1) as usize
                },
            ),
    {
        proof {
            direction.lemma_idx();
            D::Dir::spec_from_idx(0).lemma_idx();
        }
        let ghost before = self.ways_to_be_option.table@;
        let ghost n = table.spec_option_count() as int;
        let removed: bool = self.ways_to_be_option.decrement(option_idx, direction);
        proof {
            let after = self.ways_to_be_option.table@;
            let d = direction.spec_idx() as int;
            assert(spec_row_zero(before[option_idx as int]@)
                || crate::collapse::option::spec_row_positive(before[option_idx as int]@));
            if removed {
                assert(before[option_idx as int]@[d] == 1);
                assert(before[option_idx as int]@[0] != 0);
                lemma_sums_without(before, after, table.opt_with_weight@, n, option_idx as int);
            } else {
                if before[option_idx as int]@[d] == 0 {
                    assert(after[option_idx as int]@ =~= before[option_idx as int]@);
                } else {
                    assert(crate::collapse::option::spec_row_positive(before[option_idx as int]@));
                    assert(before[option_idx as int]@[d] >= 2);
                    assert(crate::collapse::option::spec_row_positive(after[option_idx as int]@)) by {
                        assert forall|e: int|
                            0 <= e < after[option_idx as int]@.len() implies after[option_idx as int]@[e]
                            > 0 by {
                            if e != d {
                                assert(after[option_idx as int]@[e] == before[option_idx as int]@[e]);
                            }
                        }
                    }
                }
                lemma_sums_same(before, after, table.opt_with_weight@, n);
            }
            assert(self.ways_to_be_option.spec_uniform()) by {
                assert forall|i: int| 0 <= i < after.len() implies spec_row_zero(
                    (#[trigger] after[i])@,
                ) || crate::collapse::option::spec_row_positive(after[i]@) by {
                    if i != option_idx {
                        assert(after[i] == before[i]);
                        assert(spec_row_zero(before[i]@) || crate::collapse::option::spec_row_positive(
                            before[i]@,
                        ));
                    }
                }
            }
            assert(self.ways_to_be_option.spec_not_above(&old(self).ways_to_be_option)) by {
                assert forall|i: int, e: int|
                    0 <= i < after.len() && 0 <= e < D::Dir::spec_count() implies #[trigger] self.ways_to_be_option.spec_ways(
                    i,
                    e,
                ) <= old(self).ways_to_be_option.spec_ways(i, e) by {
                    if i != option_idx {
                        assert(after[i] == before[i]);
                    }
                }
            }
            assert(self.ways_to_be_option.spec_not_above(&table.ways_to_be_option)) by {
                assert forall|i: int, e: int|
                    0 <= i < after.len() && 0 <= e < D::Dir::spec_count() implies #[trigger] self.ways_to_be_option.spec_ways(
                    i,
                    e,
                ) <= table.ways_to_be_option.spec_ways(i, e) by {
                    assert(self.ways_to_be_option.spec_ways(i, e) <= old(self).ways_to_be_option.spec_ways(i, e));
                    assert(old(self).ways_to_be_option.spec_ways(i, e)
                        <= table.ways_to_be_option.spec_ways(i, e));
                }
            }
            lemma_sums_bounded(before, table.opt_with_weight@, n);
            lemma_sums_bounded(self.ways_to_be_option.table@, table.opt_with_weight@, n);
        }
        if removed {
            self.remove_option(table.get_weights(option_idx));
        }
        removed
    }

    /// Makes the option impossible for the cell: the ways, the number of
    /// remaining options and the weight of the cell follow.
    ///
    /// Returns whether the option was possible.
    pub fn purge(&mut self, option_idx: usize, table: &PerOptionData<D>) -> (r: bool)
        requires
            table.wf(),
            old(self).wf(table),
            old(self).collapsed_option is None,
            option_idx < table.spec_option_count(),
        ensures
            final(self).wf(table),
            final(self).collapsed_option is None,
            final(self).spec_follows(old(self)),
            final(self).entrophy_noise == old(self).entrophy_noise,
            r == old(self).ways_to_be_option.spec_possible(option_idx as int),
            r ==> final(self).num_options == old(self).num_options - 1,
            !r ==> final(self).num_options == old(self).num_options,
            !final(self).ways_to_be_option.spec_possible(option_idx as int),
            forall|i: int|
                0 <= i < table.spec_option_count() && i != option_idx ==> final(self).ways_to_be_option.table@[i] == old(self).ways_to_be_option.table@[i],
    {
        proof {
            D::Dir::spec_from_idx(0).lemma_idx();
        }
        let ghost before = self.ways_to_be_option.table@;
        let ghost n = table.spec_option_count() as int;
        let removed: bool = self.ways_to_be_option.purge_option(option_idx);
        proof {
            let after = self.ways_to_be_option.table@;
            if removed {
                lemma_sums_without(before, after, table.opt_with_weight@, n, option_idx as int);
            } else {
                lemma_sums_same(before, after, table.opt_with_weight@, n);
            }
            assert(self.ways_to_be_option.spec_not_above(&old(self).ways_to_be_option)) by {
                assert forall|i: int, e: int|
                    0 <= i < after.len() && 0 <= e < D::Dir::spec_count() implies #[trigger] self.ways_to_be_option.spec_ways(
                    i,
                    e,
                ) <= old(self).ways_to_be_option.spec_ways(i, e) by {
                    if i != option_idx {
                        assert(after[i] == before[i]);
                    }
                }
            }
            assert(self.ways_to_be_option.spec_not_above(&table.ways_to_be_option)) by {
                assert forall|i: int, e: int|
                    0 <= i < after.len() && 0 <= e < D::Dir::spec_count() implies #[trigger] self.ways_to_be_option.spec_ways(
                    i,
                    e,
                ) <= table.ways_to_be_option.spec_ways(i, e) by {
                    assert(self.ways_to_be_option.spec_ways(i, e) <= old(self).ways_to_be_option.spec_ways(i, e));
                    assert(old(self).ways_to_be_option.spec_ways(i, e)
                        <= table.ways_to_be_option.spec_ways(i, e));
                }
            }
            lemma_sums_bounded(before, table.opt_with_weight@, n);
            lemma_sums_bounded(self.ways_to_be_option.table@, table.opt_with_weight@, n);
        }
        if removed {
            self.remove_option(table.get_weights(option_idx));
        }
        removed
    }

    /// Takes one option of the given weight out of the count of remaining
    /// options and out of the weight of the cell.
    pub fn remove_option(&mut self, weights: OptionWeights)
        requires
            old(self).num_options > 0,
            old(self).weight.count >= weights.count,
            old(self).weight.weight_log >= weights.weight_log,
        ensures
            final(self).num_options == old(self).num_options - 1,
            final(self).weight.count == old(self).weight.count - weights.count,
            final(self).weight.weight_log == old(self).weight.weight_log - weights.weight_log,
            final(self).collapsed_option == old(self).collapsed_option,
            final(self).ways_to_be_option == old(self).ways_to_be_option,
            final(self).entrophy_noise == old(self).entrophy_noise,
    {
        self.num_options = self.num_options - 1;
        self.weight.count = self.weight.count - weights.count;
        self.weight.weight_log = self.weight.weight_log - weights.weight_log;
    }

    /// Collapses the cell to the option: the cell gives up its ways, its
    /// remaining options and its weight.
    pub fn mark_collapsed(&mut self, collapsed_idx: usize)
        ensures
            final(self).collapsed_option == Some(collapsed_idx),
            final(self).num_options == 0,
            final(self).weight.count == 0,
            final(self).weight.weight_log == 0,
            final(self).ways_to_be_option.table@.len() == 0,
    {
        self.collapsed_option = Some(collapsed_idx);
        self.num_options = 0;
        self.weight = OptionWeights::zero();
        self.ways_to_be_option = WaysToBeOption::new();
    }

    /// The option that the random number selects.
    pub fn choose_option(&self, random: u32, options_data: &PerOptionData<D>) -> (r: usize)
        requires
            options_data.wf(),
            self.wf(options_data),
            self.collapsed_option is None,
            random < self.weight.count,
        ensures
            self.spec_selects(options_data, random, r as int),
    {
        let n: usize = options_data.option_count();
        let mut running: u32 = 0;
        let mut i: usize = 0;
        while i < n
            invariant
                options_data.wf(),
                self.wf(options_data),
                self.collapsed_option is None,
                0 <= i <= n,
                n == options_data.spec_option_count(),
                running == spec_weight_sum(
                    self.ways_to_be_option.table@,
                    options_data.opt_with_weight@,
                    i as int,
                ),
                running <= random,
            decreases n - i,
        {
            proof {
                lemma_sums_bounded(
                    self.ways_to_be_option.table@,
                    options_data.opt_with_weight@,
                    i as int + 1,
                );
                lemma_total_weight_mono(options_data.opt_with_weight@, i as int + 1, n as int);
            }
            if self.ways_to_be_option.is_possible(i) {
                let next: u32 = running + options_data.get_weights(i).count;
                if next > random {
                    return i;
                }
                running = next;
            }
            i = i + 1;
        }
        proof {
            assert(false);
        }
        vstd::pervasive::unreached()
    }

    /// Collapses the cell to the option that the random number selects, and
    /// returns the options that the cell could still have become, in
    /// increasing order.
    pub fn collapse_with(&mut self, random: u32, options_data: &PerOptionData<D>) -> (r: Vec<usize>)
        requires
            options_data.wf(),
            old(self).wf(options_data),
            old(self).collapsed_option is None,
            random < old(self).weight.count,
        ensures
            final(self).wf(options_data),
            final(self).collapsed_option is Some,
            old(self).spec_selects(options_data, random, final(self).collapsed_option->0 as int),
            r@.map_values(|i: usize| i as int) == old(self).spec_possible_except(
                final(self).collapsed_option->0 as int,
            ),
            forall|k: int| 0 <= k < r@.len() ==> r@[k] < options_data.spec_option_count(),
            crate::collapse::table::spec_increasing(r@),
            forall|j: int|
                0 <= j < options_data.spec_option_count() ==> (
                #[trigger] crate::collapse::support::spec_lists(r@, j) <==> (old(self).ways_to_be_option.spec_possible(j) && j != final(self).collapsed_option->0)),
    {
        let chosen: usize = self.choose_option(random, options_data);
        let mut out: Vec<usize> = Vec::new();
        let n: usize = self.ways_to_be_option.len();
        let mut i: usize = 0;
        let ghost chosen_idx: int = chosen as int;
        let ghost start = *self;
        let ghost pred = |i: int| start.ways_to_be_option.spec_possible(i) && i != chosen_idx;
        let ghost cast = |i: usize| i as int;
        proof {
            assert(Seq::new(0nat, |i: int| i).filter(pred) =~= Seq::<int>::empty()) by {
                reveal(Seq::filter);
            }
            assert(out@.map_values(cast) =~= Seq::<int>::empty());
        }
        while i < n
            invariant
                self.wf(options_data),
                self.collapsed_option is None,
                0 <= i <= n,
                n == self.ways_to_be_option.table@.len(),
                chosen_idx == chosen,
                start == *self,
                pred == |i: int| start.ways_to_be_option.spec_possible(i) && i != chosen_idx,
                cast == |i: usize| i as int,
                out@.map_values(cast) == Seq::new(i as nat, |i: int| i).filter(pred),
                forall|k: int| 0 <= k < out@.len() ==> out@[k] < i,
                crate::collapse::table::spec_increasing(out@),
                forall|j: int|
                    0 <= j < i ==> (#[trigger] crate::collapse::support::spec_lists(out@, j) <==> (
                    start.ways_to_be_option.spec_possible(j) && j != chosen_idx)),
            decreases n - i,
        {
            proof {
                let s0 = Seq::new(i as nat, |i: int| i);
                let s1 = Seq::new((i + 1) as nat, |i: int| i);
                assert(s1 =~= s0.push(i as int));
                crate::position::lemma_filter_push(s0, i as int, pred);
                crate::map::lemma_map_values_push(out@, i, cast);
            }
            let ghost before = out@;
            if i != chosen && self.ways_to_be_option.is_possible(i) {
                out.push(i);
            }
            proof {
                assert forall|j: int| 0 <= j < i + 1 implies (
                #[trigger] crate::collapse::support::spec_lists(out@, j) <==> (
                start.ways_to_be_option.spec_possible(j) && j != chosen_idx)) by {
                    if crate::collapse::support::spec_lists(before, j) {
                        let k = choose|k: int| 0 <= k < before.len() && #[trigger] before[k] == j;
                        assert(out@[k] == j);
                    }
                    if crate::collapse::support::spec_lists(out@, j) {
                        let k = choose|k: int| 0 <= k < out@.len() && #[trigger] out@[k] == j;
                        if k < before.len() {
                            assert(before[k] == j);
                        }
                    }
                    if j == i && out@.len() > before.len() {
                        assert(out@[before.len() as int] == j);
                    }
                }
            }
            i = i + 1;
        }
        proof {
            assert forall|j: int| 0 <= j < options_data.spec_option_count() implies (
            #[trigger] crate::collapse::support::spec_lists(out@, j) <==> (
            start.ways_to_be_option.spec_possible(j) && j != chosen_idx)) by {}
            crate::position::lemma_filter_ext(
                Seq::new(n as nat, |i: int| i),
                pred,
                start.spec_is_possible_except(chosen_idx),
            );
        }
        self.mark_collapsed(chosen);
        out
    }

    /// Collapses the cell to an option drawn at random by weight, and
    /// returns the options that the cell could still have become, in
    /// increasing order.
    pub fn collapse_gather_removed(&mut self, rng: &mut StdRng, options_data: &PerOptionData<D>) -> (r:
        Vec<usize>)
        requires
            options_data.wf(),
            old(self).wf(options_data),
            old(self).collapsed_option is None,
            old(self).weight.count > 0,
        ensures
            final(self).wf(options_data),
            final(self).collapsed_option is Some,
            old(self).spec_possible(final(self).collapsed_option->0 as int),
            r@.map_values(|i: usize| i as int) == old(self).spec_possible_except(
                final(self).collapsed_option->0 as int,
            ),
            forall|k: int| 0 <= k < r@.len() ==> r@[k] < options_data.spec_option_count(),
            crate::collapse::table::spec_increasing(r@),
            forall|j: int|
                0 <= j < options_data.spec_option_count() ==> (
                #[trigger] crate::collapse::support::spec_lists(r@, j) <==> (old(self).ways_to_be_option.spec_possible(j) && j != final(self).collapsed_option->0)),
    {
        let random: u32 = gen_range_u32(rng, 0, self.weight.count);
        self.collapse_with(random, options_data)
    }

    /// Collapses the cell to an option drawn at random by weight.
    pub fn collapse_basic(&mut self, rng: &mut StdRng, options_data: &PerOptionData<D>)
        requires
            options_data.wf(),
            old(self).wf(options_data),
            old(self).collapsed_option is None,
            old(self).weight.count > 0,
        ensures
            final(self).wf(options_data),
            final(self).collapsed_option is Some,
            old(self).spec_possible(final(self).collapsed_option->0 as int),
    {
        let random: u32 = gen_range_u32(rng, 0, self.weight.count);
        let chosen: usize = self.choose_option(random, options_data);
        self.mark_collapsed(chosen);
    }
}

/// The sum of the first `n` weights is at most the sum of the first `m`,
/// for `n` not above `m`.
pub proof fn lemma_total_weight_mono(weights: Seq<OptionWeights>, n: int, m: int)
    requires
        0 <= n <= m,
    ensures
        0 <= spec_total_weight(weights, n) <= spec_total_weight(weights, m),
    decreases m,
{
    if m > n {
        lemma_total_weight_mono(weights, n, m - 1);
    } else if n > 0 {
        lemma_total_weight_mono(weights, n - 1, n - 1);
    }
}

/// Where every weight is positive, there are possible options among the
/// first `n` exactly where their weights sum to more than zero.
pub proof fn lemma_count_and_weight(rows: Seq<Vec<usize>>, weights: Seq<OptionWeights>, n: int)
    requires
        0 <= n <= weights.len(),
        forall|i: int| 0 <= i < n ==> (#[trigger] weights[i]).count > 0,
    ensures
        0 <= spec_count_possible(rows, n),
        0 <= spec_weight_sum(rows, weights, n),
        spec_count_possible(rows, n) > 0 <==> spec_weight_sum(rows, weights, n) > 0,
    decreases n,
{
    if n > 0 {
        lemma_count_and_weight(rows, weights, n - 1);
    }
}

} // verus!
