//! The table of options that a grid is collapsed with.

use vstd::prelude::*;
use crate::collapse::entropy::spec_weight_log;
use crate::collapse::option::OptionWeights;
use crate::collapse::option::WaysToBeOption;
use crate::collapse::option::spec_count_possible;
use crate::collapse::option::spec_row_positive;
use crate::collapse::option::spec_row_zero;
use crate::collapse::option::spec_total_weight;
use crate::collapse::rules::AdjacencyTable;
use crate::collapse::rules::FrequencyHints;
use crate::collapse::rules::spec_sum_weights;
use crate::dimension::Dimensionality;
use crate::direction::Direction;
use crate::id::lower_bound;
use crate::id::spec_strictly_increasing;

verus! {

/// Whether the numbers are in strictly increasing order.
pub open spec fn spec_increasing(s: Seq<usize>) -> bool {
    forall|i: int, j: int| 0 <= i < j < s.len() ==> s[i] < s[j]
}

/// Everything that the collapse of a grid needs to know of its options.
///
/// The options are the tile types that have a weight, numbered in the order
/// of their identifiers. For each option the table holds its weight and, for
/// each direction, the options that may stand beside it in that direction.
/// It also holds the ways in which a cell that no neighbour has constrained
/// yet can be each option: the number of options that may stand beside it,
/// direction by direction, or zero in every direction for an option beside
/// which nothing may stand in some direction.
pub struct PerOptionData<D: Dimensionality> {
    pub ids: Vec<u64>,
    pub adjacencies: Vec<Vec<Vec<usize>>>,
    pub ways_to_be_option: WaysToBeOption<D>,
    pub opt_with_weight: Vec<OptionWeights>,
    pub possible_options_count: usize,
}

/// Table of options of a grid of two dimensions.
pub type PerOptionData2D = PerOptionData<crate::two_d::TwoDim>;

/// Table of options of a grid of three dimensions.
pub type PerOptionData3D = PerOptionData<crate::three_d::ThreeDim>;

impl<D: Dimensionality> PerOptionData<D> {
    /// Number of options.
    pub open spec fn spec_option_count(&self) -> nat {
        self.ids@.len()
    }

    /// The options that may stand beside the option in the direction with the
    /// given index.
    pub open spec fn spec_enabled(&self, option_idx: int, direction: int) -> Seq<usize> {
        self.adjacencies@[option_idx]@[direction]@
    }

    /// Whether the option `neighbour` may stand beside the option
    /// `option_idx` in the direction with the given index.
    pub open spec fn spec_allows(&self, option_idx: int, direction: int, neighbour: int) -> bool {
        exists|k: int|
            0 <= k < self.spec_enabled(option_idx, direction).len() && #[trigger] self.spec_enabled(
                option_idx,
                direction,
            )[k] == neighbour
    }

    /// Whether something may stand beside the option in every direction.
    pub open spec fn spec_has_all_neighbours(&self, option_idx: int) -> bool {
        forall|d: int|
            0 <= d < D::Dir::spec_count() ==> (#[trigger] self.spec_enabled(option_idx, d)).len() > 0
    }

    /// The shape of the table: one weight, one row of ways and one list of
    /// neighbours per direction for each option, and every neighbour an
    /// option of the table.
    pub open spec fn spec_shape(&self) -> bool {
        &&& self.adjacencies@.len() == self.ids@.len()
        &&& self.opt_with_weight@.len() == self.ids@.len()
        &&& self.ways_to_be_option.table@.len() == self.ids@.len()
        &&& self.ways_to_be_option.wf()
        &&& spec_strictly_increasing(self.ids@)
        &&& forall|i: int|
            0 <= i < self.ids@.len() ==> (#[trigger] self.adjacencies@[i])@.len()
                == D::Dir::spec_count()
        &&& forall|i: int, d: int|
            0 <= i < self.ids@.len() && 0 <= d < D::Dir::spec_count() ==> {
                &&& spec_increasing(#[trigger] self.spec_enabled(i, d))
                &&& forall|k: int|
                    0 <= k < self.spec_enabled(i, d).len() ==> self.spec_enabled(i, d)[k]
                        < self.ids@.len()
            }
    }

    /// The table is well-formed: it has its shape; the ways to be an option
    /// are the numbers of its neighbours, or zero throughout where it has
    /// none in some direction; the count of possible options is the number of
    /// options with ways; every weight is positive and holds its weighted
    /// logarithm; and the sum of all weights fits 32 bits.
    pub open spec fn wf(&self) -> bool {
        &&& self.spec_shape()
        &&& forall|i: int|
            0 <= i < self.ids@.len() ==> if self.spec_has_all_neighbours(i) {
                forall|d: int|
                    0 <= d < D::Dir::spec_count() ==> (#[trigger] self.ways_to_be_option.spec_ways(
                        i,
                        d,
                    )) == self.spec_enabled(i, d).len()
            } else {
                spec_row_zero((#[trigger] self.ways_to_be_option.table@[i])@)
            }
        &&& self.possible_options_count == spec_count_possible(
            self.ways_to_be_option.table@,
            self.ids@.len() as int,
        )
        &&& forall|i: int|
            0 <= i < self.ids@.len() ==> (#[trigger] self.opt_with_weight@[i]).count > 0
                && self.opt_with_weight@[i].weight_log == spec_weight_log(
                self.opt_with_weight@[i].count as nat,
            )
        &&& spec_total_weight(self.opt_with_weight@, self.ids@.len() as int) <= u32::MAX
    }

    /// Whether each permission has its mirror image: where `j` may stand
    /// beside `i` in a direction, `i` may stand beside `j` in the opposite
    /// direction.
    pub open spec fn spec_symmetric(&self) -> bool {
        forall|i: int, d: int, j: int|
            0 <= i < self.ids@.len() && 0 <= d < D::Dir::spec_count() && #[trigger] self.spec_allows(
                i,
                d,
                j,
            ) ==> self.spec_allows(
                j,
                D::Dir::spec_from_idx(d as nat).spec_opposite().spec_idx() as int,
                i,
            )
    }

    /// In a well-formed table the rows of ways are uniform: all zero or all
    /// positive.
    pub proof fn lemma_template_uniform(&self)
        requires
            self.wf(),
        ensures
            self.ways_to_be_option.spec_uniform(),
    {
        assert forall|i: int| 0 <= i < self.ways_to_be_option.table@.len() implies spec_row_zero(
            (#[trigger] self.ways_to_be_option.table@[i])@,
        ) || spec_row_positive(self.ways_to_be_option.table@[i]@) by {
            if self.spec_has_all_neighbours(i) {
                assert forall|d: int|
                    0 <= d < self.ways_to_be_option.table@[i]@.len() implies self.ways_to_be_option.table@[i]@[d]
                    > 0 by {
                    assert(self.ways_to_be_option.spec_ways(i, d) == self.spec_enabled(i, d).len());
                }
            }
        }
    }

    /// Number of options.
    pub fn option_count(&self) -> (r: usize)
        ensures
            r == self.spec_option_count(),
    {
        self.ids.len()
    }

    /// Number of options beside which something may stand in every
    /// direction.
    pub fn possible_options_count(&self) -> (r: usize)
        ensures
            r == self.possible_options_count,
    {
        self.possible_options_count
    }

    /// The ways in which an unconstrained cell can be each option.
    pub fn ways_to_be_option(&self) -> (r: &WaysToBeOption<D>)
        ensures
            *r == self.ways_to_be_option,
    {
        &self.ways_to_be_option
    }

    /// The weight of the option.
    pub fn get_weights(&self, option_idx: usize) -> (r: OptionWeights)
        requires
            self.spec_shape(),
            option_idx < self.spec_option_count(),
        ensures
            r == self.opt_with_weight@[option_idx as int],
    {
        self.opt_with_weight[option_idx]
    }

    /// The options that may stand beside the option in the direction.
    pub fn get_all_enabled_in_direction(&self, option_id: usize, direction: D::Dir) -> (r: &Vec<usize>)
        requires
            self.spec_shape(),
            option_id < self.spec_option_count(),
        ensures
            r@ == self.spec_enabled(option_id as int, direction.spec_idx() as int),
    {
        proof {
            direction.lemma_idx();
        }
        &self.adjacencies[option_id][direction.as_idx()]
    }

    /// The identifier of the tile type of the option.
    pub fn get_tile_type_id(&self, option_idx: usize) -> (r: Option<u64>)
        ensures
            r is Some <==> option_idx < self.spec_option_count(),
            r is Some ==> r->0 == self.ids@[option_idx as int],
    {
        if option_idx < self.ids.len() {
            Some(self.ids[option_idx])
        } else {
            None
        }
    }

    /// The option of the tile type, if the tile type is an option.
    pub fn get_option_idx(&self, tile_type_id: u64) -> (r: Option<usize>)
        requires
            spec_strictly_increasing(self.ids@),
        ensures
            r is Some <==> self.ids@.contains(tile_type_id),
            r is Some ==> r->0 < self.ids@.len() && self.ids@[r->0 as int] == tile_type_id,
    {
        let at: usize = lower_bound(&self.ids, tile_type_id);
        if at < self.ids.len() && self.ids[at] == tile_type_id {
            Some(at)
        } else {
            proof {
                if self.ids@.contains(tile_type_id) {
                    let k = choose|k: int| 0 <= k < self.ids@.len() && self.ids@[k] == tile_type_id;
                    assert(false);
                }
            }
            None
        }
    }

    /// The options among the tile types of `list`, which increase strictly,
    /// in increasing order.
    pub fn translate_list(ids: &Vec<u64>, list: &Vec<u64>) -> (r: Vec<usize>)
        requires
            spec_strictly_increasing(ids@),
            spec_strictly_increasing(list@),
        ensures
            spec_increasing(r@),
            forall|k: int| 0 <= k < r@.len() ==> r@[k] < ids@.len() && list@.contains(ids@[r@[k] as int]),
            forall|j: int| 0 <= j < ids@.len() && list@.contains(ids@[j]) ==> r@.contains(j as usize),
    {
        let mut out: Vec<usize> = Vec::new();
        let mut i: usize = 0;
        while i < list.len()
            invariant
                spec_strictly_increasing(ids@),
                spec_strictly_increasing(list@),
                0 <= i <= list@.len(),
                spec_increasing(out@),
                forall|k: int|
                    0 <= k < out@.len() ==> out@[k] < ids@.len() && exists|m: int|
                        0 <= m < i && list@[m] == ids@[out@[k] as int],
                forall|j: int, m: int|
                    0 <= j < ids@.len() && 0 <= m < i && list@[m] == ids@[j] ==> out@.contains(
                        j as usize,
                    ),
            decreases list@.len() - i,
        {
            let id: u64 = list[i];
            let at: usize = lower_bound(ids, id);
            let ghost before = out@;
            if at < ids.len() && ids[at] == id {
                out.push(at);
                proof {
                    assert forall|a: int, b: int| 0 <= a < b < out@.len() implies out@[a] < out@[b] by {
                        if b == before.len() {
                            let m = choose|m: int| 0 <= m < i && list@[m] == ids@[before[a] as int];
                            assert(list@[m] < list@[i as int]);
                            if before[a] >= at {
                                if before[a] > at {
                                    assert(ids@[at as int] < ids@[before[a] as int]);
                                }
                            }
                        } else {
                            assert(before[a] < before[b]);
                        }
                    }
                    assert forall|k: int| 0 <= k < out@.len() implies out@[k] < ids@.len() && exists|
                        m: int,
                    |
                        0 <= m < i + 1 && list@[m] == ids@[out@[k] as int] by {
                        if k < before.len() {
                            let m = choose|m: int| 0 <= m < i && list@[m] == ids@[before[k] as int];
                            assert(list@[m] == ids@[out@[k] as int]);
                        } else {
                            assert(list@[i as int] == ids@[out@[k] as int]);
                        }
                    }
                    assert forall|j: int, m: int|
                        0 <= j < ids@.len() && 0 <= m < i + 1 && list@[m] == ids@[j] implies out@.contains(
                        j as usize,
                    ) by {
                        if m < i {
                            assert(before.contains(j as usize));
                            let k = choose|k: int| 0 <= k < before.len() && before[k] == j as usize;
                            assert(out@[k] == j as usize);
                        } else {
                            if j != at {
                                if j < at {
                                    assert(ids@[j] < ids@[at as int]);
                                } else {
                                    assert(ids@[at as int] < ids@[j]);
                                }
                            }
                            assert(out@[before.len() as int] == at);
                        }
                    }
                }
            } else {
                proof {
                    assert forall|j: int, m: int|
                        0 <= j < ids@.len() && 0 <= m < i + 1 && list@[m] == ids@[j] implies out@.contains(
                        j as usize,
                    ) by {
                        if m == i {
                            assert(ids@[j] == id);
                            assert(false);
                        }
                    }
                }
            }
            i = i + 1;
        }
        proof {
            assert forall|k: int| 0 <= k < out@.len() implies out@[k] < ids@.len() && list@.contains(
                ids@[out@[k] as int],
            ) by {
                let m = choose|m: int| 0 <= m < i && list@[m] == ids@[out@[k] as int];
                assert(list@[m] == ids@[out@[k] as int]);
            }
            assert forall|j: int| 0 <= j < ids@.len() && list@.contains(ids@[j]) implies out@.contains(
                j as usize,
            ) by {
                let m = choose|m: int| 0 <= m < list@.len() && list@[m] == ids@[j];
                assert(list@[m] == ids@[j]);
            }
        }
        out
    }

    /// The options that may stand beside the tile type `original_id`, for
    /// each direction, under the rules of `adjacencies`.
    pub fn translate_adjacency_table(ids: &Vec<u64>, original_id: u64, adjacencies: &AdjacencyTable<D>) -> (r:
        Vec<Vec<usize>>)
        requires
            spec_strictly_increasing(ids@),
            adjacencies.wf(),
        ensures
            r@.len() == D::Dir::spec_count(),
            forall|d: int|
                0 <= d < D::Dir::spec_count() ==> {
                    &&& spec_increasing((#[trigger] r@[d])@)
                    &&& forall|k: int|
                        0 <= k < r@[d]@.len() ==> r@[d]@[k] < ids@.len() && adjacencies.spec_allowed(
                            original_id,
                            d,
                            ids@[r@[d]@[k] as int],
                        )
                    &&& forall|j: int|
                        0 <= j < ids@.len() && adjacencies.spec_allowed(original_id, d, ids@[j])
                            ==> r@[d]@.contains(j as usize)
                },
    {
        let n: usize = D::Dir::count();
        let mut table: Vec<Vec<usize>> = Vec::new();
        let mut d: usize = 0;
        while d < n
            invariant
                spec_strictly_increasing(ids@),
                adjacencies.wf(),
                0 <= d <= n,
                n == D::Dir::spec_count(),
                table@.len() == d,
                forall|e: int|
                    0 <= e < d ==> {
                        &&& spec_increasing((#[trigger] table@[e])@)
                        &&& forall|k: int|
                            0 <= k < table@[e]@.len() ==> table@[e]@[k] < ids@.len()
                                && adjacencies.spec_allowed(original_id, e, ids@[table@[e]@[k] as int])
                        &&& forall|j: int|
                            0 <= j < ids@.len() && adjacencies.spec_allowed(original_id, e, ids@[j])
                                ==> table@[e]@.contains(j as usize)
                    },
            decreases n - d,
        {
            let direction: D::Dir = D::Dir::from_idx(d);
            proof {
                D::Dir::lemma_from_idx(d as nat);
            }
            let list: Vec<u64> = adjacencies.get_all_adjacencies_in_direction(original_id, direction);
            let translated: Vec<usize> = Self::translate_list(ids, &list);
            table.push(translated);
            d = d + 1;
        }
        table
    }

    /// Builds the table of the options that have a weight in `frequencies`,
    /// with the neighbours that `adjacencies` permits.
    ///
    /// The options are the tile types of `frequencies` in the order of their
    /// identifiers. Rules that name a tile type without weight are left out.
    pub fn populate(frequencies: &FrequencyHints, adjacencies: &AdjacencyTable<D>) -> (r: Self)
        requires
            frequencies.wf(),
            frequencies.spec_total() <= u32::MAX,
            adjacencies.wf(),
        ensures
            r.wf(),
            r.ids@ == frequencies.weights.ids@,
            forall|i: int|
                0 <= i < r.ids@.len() ==> (#[trigger] r.opt_with_weight@[i]).count
                    == frequencies.weights.values@[i],
            forall|i: int, d: int, j: int|
                0 <= i < r.ids@.len() && 0 <= d < D::Dir::spec_count() && 0 <= j < r.ids@.len() ==> (
                #[trigger] r.spec_allows(i, d, j) <==> adjacencies.spec_allowed(
                    r.ids@[i],
                    d,
                    r.ids@[j],
                )),
            adjacencies.spec_symmetric() ==> r.spec_symmetric(),
    {
        let count: usize = frequencies.weights.ids.len();
        let n: usize = D::Dir::count();
        let mut ids: Vec<u64> = Vec::new();
        let mut weights: Vec<OptionWeights> = Vec::new();
        let mut i: usize = 0;
        while i < count
            invariant
                frequencies.wf(),
                0 <= i <= count,
                count == frequencies.weights.ids@.len(),
                ids@ == frequencies.weights.ids@.take(i as int),
                weights@.len() == i,
                forall|k: int|
                    0 <= k < i ==> (#[trigger] weights@[k]).count == frequencies.weights.values@[k]
                        && weights@[k].count > 0 && weights@[k].weight_log == spec_weight_log(
                        weights@[k].count as nat,
                    ),
                spec_total_weight(weights@, i as int) == spec_sum_weights(
                    frequencies.weights.values@,
                    i as int,
                ),
            decreases count - i,
        {
            ids.push(frequencies.weights.ids[i]);
            let ghost before = weights@;
            weights.push(OptionWeights::new(frequencies.weights.values[i]));
            proof {
                assert(frequencies.weights.ids@.take(i as int + 1) == frequencies.weights.ids@.take(
                    i as int,
                ).push(frequencies.weights.ids@[i as int]));
                lemma_total_weight_prefix(before, weights@, i as int);
            }
            i = i + 1;
        }
        proof {
            assert(frequencies.weights.ids@.take(count as int) == frequencies.weights.ids@);
        }
        let mut adjacency_lists: Vec<Vec<Vec<usize>>> = Vec::new();
        let mut ways: WaysToBeOption<D> = WaysToBeOption::new();
        let mut possible: usize = 0;
        let mut o: usize = 0;
        while o < count
            invariant
                adjacencies.wf(),
                0 <= o <= count,
                count == ids@.len(),
                n == D::Dir::spec_count(),
                spec_strictly_increasing(ids@),
                adjacency_lists@.len() == o,
                ways.wf(),
                ways.table@.len() == o,
                possible == spec_count_possible(ways.table@, o as int),
                possible <= o,
                forall|a: int|
                    0 <= a < o ==> (#[trigger] adjacency_lists@[a])@.len() == D::Dir::spec_count(),
                forall|a: int, d: int|
                    0 <= a < o && 0 <= d < D::Dir::spec_count() ==> {
                        &&& spec_increasing((#[trigger] adjacency_lists@[a]@[d])@)
                        &&& forall|k: int|
                            0 <= k < adjacency_lists@[a]@[d]@.len() ==> adjacency_lists@[a]@[d]@[k]
                                < ids@.len() && adjacencies.spec_allowed(
                                ids@[a],
                                d,
                                ids@[adjacency_lists@[a]@[d]@[k] as int],
                            )
                        &&& forall|j: int|
                            0 <= j < ids@.len() && adjacencies.spec_allowed(ids@[a], d, ids@[j])
                                ==> adjacency_lists@[a]@[d]@.contains(j as usize)
                    },
                forall|a: int|
                    0 <= a < o ==> if forall|d: int|
                        0 <= d < D::Dir::spec_count() ==> (#[trigger] adjacency_lists@[a]@[d])@.len()
                            > 0 {
                        forall|d: int|
                            0 <= d < D::Dir::spec_count() ==> (#[trigger] ways.table@[a]@[d])
                                == adjacency_lists@[a]@[d]@.len()
                    } else {
                        spec_row_zero((#[trigger] ways.table@[a])@)
                    },
            decreases count - o,
        {
            let table: Vec<Vec<usize>> = Self::translate_adjacency_table(&ids, ids[o], adjacencies);
            let mut lens: Vec<usize> = Vec::new();
            let mut any_empty: bool = false;
            let mut d: usize = 0;
            while d < n
                invariant
                    0 <= d <= n,
                    n == D::Dir::spec_count(),
                    table@.len() == n,
                    lens@.len() == d,
                    forall|e: int| 0 <= e < d ==> lens@[e] == (#[trigger] table@[e])@.len(),
                    any_empty == exists|e: int| 0 <= e < d && (#[trigger] table@[e])@.len() == 0,
                decreases n - d,
            {
                let len: usize = table[d].len();
                lens.push(len);
                if len == 0 {
                    any_empty = true;
                }
                d = d + 1;
            }
            let ghost ways_before = ways.table@;
            let ghost lists_before = adjacency_lists@;
            proof {
                D::Dir::spec_from_idx(0).lemma_idx();
            }
            if any_empty {
                ways.insert_empty();
            } else {
                ways.insert_from_slice(lens.as_slice());
                possible = possible + 1;
            }
            adjacency_lists.push(table);
            proof {
                crate::collapse::option::lemma_sums_same(
                    ways_before,
                    ways.table@,
                    weights@,
                    o as int,
                );
                assert forall|a: int| 0 <= a < o + 1 implies (#[trigger] adjacency_lists@[a])@.len()
                    == D::Dir::spec_count() by {
                    if a < o {
                        assert(adjacency_lists@[a] == lists_before[a]);
                    }
                }
                assert forall|a: int, d: int|
                    0 <= a < o + 1 && 0 <= d < D::Dir::spec_count() implies {
                    &&& spec_increasing((#[trigger] adjacency_lists@[a]@[d])@)
                    &&& forall|k: int|
                        0 <= k < adjacency_lists@[a]@[d]@.len() ==> adjacency_lists@[a]@[d]@[k]
                            < ids@.len() && adjacencies.spec_allowed(
                            ids@[a],
                            d,
                            ids@[adjacency_lists@[a]@[d]@[k] as int],
                        )
                    &&& forall|j: int|
                        0 <= j < ids@.len() && adjacencies.spec_allowed(ids@[a], d, ids@[j])
                            ==> adjacency_lists@[a]@[d]@.contains(j as usize)
                } by {
                    if a < o {
                        assert(adjacency_lists@[a] == lists_before[a]);
                        assert(spec_increasing(lists_before[a]@[d]@));
                    } else {
                        assert(adjacency_lists@[a] == table);
                        assert(spec_increasing(table@[d]@));
                    }
                }
                assert forall|a: int| 0 <= a < o + 1 implies if forall|d: int|
                    0 <= d < D::Dir::spec_count() ==> (#[trigger] adjacency_lists@[a]@[d])@.len() > 0 {
                    forall|d: int|
                        0 <= d < D::Dir::spec_count() ==> (#[trigger] ways.table@[a]@[d])
                            == adjacency_lists@[a]@[d]@.len()
                } else {
                    spec_row_zero((#[trigger] ways.table@[a])@)
                } by {
                    if a < o {
                        assert(adjacency_lists@[a] == lists_before[a]);
                        assert(ways.table@[a] == ways_before[a]);
                    } else {
                        assert(adjacency_lists@[a] == table);
                        if any_empty {
                            let e = choose|e: int| 0 <= e < n && (#[trigger] table@[e])@.len() == 0;
                            assert(adjacency_lists@[a]@[e]@.len() == 0);
                        } else {
                            assert forall|d: int| 0 <= d < D::Dir::spec_count() implies (
                            #[trigger] adjacency_lists@[a]@[d])@.len() > 0 by {
                                assert(table@[d]@.len() != 0);
                            }
                        }
                    }
                }
            }
            o = o + 1;
        }
        let r = Self {
            ids,
            adjacencies: adjacency_lists,
            ways_to_be_option: ways,
            opt_with_weight: weights,
            possible_options_count: possible,
        };
        proof {
            assert forall|i: int, d: int|
                0 <= i < r.ids@.len() && 0 <= d < D::Dir::spec_count() implies {
                &&& spec_increasing(#[trigger] r.spec_enabled(i, d))
                &&& forall|k: int|
                    0 <= k < r.spec_enabled(i, d).len() ==> r.spec_enabled(i, d)[k] < r.ids@.len()
            } by {
                assert(spec_increasing(r.adjacencies@[i]@[d]@));
            }
            assert forall|i: int| 0 <= i < r.ids@.len() implies if r.spec_has_all_neighbours(i) {
                forall|d: int|
                    0 <= d < D::Dir::spec_count() ==> (#[trigger] r.ways_to_be_option.spec_ways(i, d))
                        == r.spec_enabled(i, d).len()
            } else {
                spec_row_zero((#[trigger] r.ways_to_be_option.table@[i])@)
            } by {
                if r.spec_has_all_neighbours(i) {
                    assert forall|d: int| 0 <= d < D::Dir::spec_count() implies (
                    #[trigger] r.adjacencies@[i]@[d])@.len() > 0 by {
                        assert(r.spec_enabled(i, d).len() > 0);
                    }
                } else {
                    if forall|d: int|
                        0 <= d < D::Dir::spec_count() ==> (#[trigger] r.adjacencies@[i]@[d])@.len()
                            > 0 {
                        assert forall|d: int| 0 <= d < D::Dir::spec_count() implies (
                        #[trigger] r.spec_enabled(i, d)).len() > 0 by {
                            assert(r.adjacencies@[i]@[d]@.len() > 0);
                        }
                    }
                }
            }
            assert forall|i: int, d: int, j: int|
                0 <= i < r.ids@.len() && 0 <= d < D::Dir::spec_count() && 0 <= j < r.ids@.len() implies (
            #[trigger] r.spec_allows(i, d, j) <==> adjacencies.spec_allowed(r.ids@[i], d, r.ids@[j])) by {
                let list = r.adjacencies@[i]@[d]@;
                assert(spec_increasing(list));
                if adjacencies.spec_allowed(r.ids@[i], d, r.ids@[j]) {
                    assert(list.contains(j as usize));
                    let k = choose|k: int| 0 <= k < list.len() && list[k] == j as usize;
                    assert(r.spec_enabled(i, d)[k] == j);
                }
                if r.spec_allows(i, d, j) {
                    let k = choose|k: int|
                        0 <= k < r.spec_enabled(i, d).len() && #[trigger] r.spec_enabled(i, d)[k] == j;
                    assert(list[k] == j);
                    assert(r.ids@[list[k] as int] == r.ids@[j]);
                }
            }
            if adjacencies.spec_symmetric() {
                assert forall|i: int, d: int, j: int|
                    0 <= i < r.ids@.len() && 0 <= d < D::Dir::spec_count() && #[trigger] r.spec_allows(
                        i,
                        d,
                        j,
                    ) implies r.spec_allows(
                    j,
                    D::Dir::spec_from_idx(d as nat).spec_opposite().spec_idx() as int,
                    i,
                ) by {
                    let back = D::Dir::spec_from_idx(d as nat).spec_opposite().spec_idx() as int;
                    D::Dir::lemma_from_idx(d as nat);
                    D::Dir::spec_from_idx(d as nat).spec_opposite().lemma_idx();
                    let k = choose|k: int|
                        0 <= k < r.spec_enabled(i, d).len() && #[trigger] r.spec_enabled(i, d)[k] == j;
                    assert(0 <= j < r.ids@.len());
                    assert(adjacencies.spec_allowed(r.ids@[i], d, r.ids@[j]));
                    assert(adjacencies.spec_allowed(r.ids@[j], back, r.ids@[i]));
                    assert(r.spec_allows(j, back, i));
                }
            }
        }
        r
    }

    /// Whether something may stand beside every option in every direction.
    pub fn all_options_possible(&self) -> (r: bool)
        requires
            self.wf(),
        ensures
            r == crate::collapse::support::spec_all_possible(self),
    {
        proof {
            self.lemma_count_of_possible(self.ids@.len() as int);
        }
        self.possible_options_count == self.ids.len()
    }

    /// The number of the first `n` options with ways is `n` exactly where
    /// something may stand beside each of them in every direction.
    pub proof fn lemma_count_of_possible(&self, n: int)
        requires
            self.wf(),
            0 <= n <= self.ids@.len(),
        ensures
            0 <= spec_count_possible(self.ways_to_be_option.table@, n) <= n,
            spec_count_possible(self.ways_to_be_option.table@, n) == n <==> forall|i: int|
                0 <= i < n ==> #[trigger] self.spec_has_all_neighbours(i),
        decreases n,
    {
        if n > 0 {
            self.lemma_count_of_possible(n - 1);
            D::Dir::spec_from_idx(0).lemma_idx();
            D::Dir::lemma_from_idx(0);
            if self.spec_has_all_neighbours(n - 1) {
                assert(self.ways_to_be_option.spec_ways(n - 1, 0) == self.spec_enabled(n - 1, 0).len());
                assert(self.spec_enabled(n - 1, 0).len() > 0);
            }
        }
    }
}

/// Adding a weight behind the first `n` weights leaves their sum and adds
/// the new count to the sum of all.
pub proof fn lemma_total_weight_prefix(before: Seq<OptionWeights>, after: Seq<OptionWeights>, n: int)
    requires
        0 <= n <= before.len(),
        after.len() > n,
        forall|k: int| 0 <= k < n ==> after[k] == before[k],
    ensures
        spec_total_weight(after, n) == spec_total_weight(before, n),
        spec_total_weight(after, n + 1) == spec_total_weight(before, n) + after[n].count,
    decreases n,
{
    if n > 0 {
        lemma_total_weight_prefix(before, after, n - 1);
    }
}

} // verus!
