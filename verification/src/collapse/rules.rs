//! Adjacency rules and frequency hints.
//!
//! Adjacency rules say which tile types may stand beside which, direction by
//! direction. Frequency hints give each tile type a weight.

use vstd::prelude::*;
use core::marker::PhantomData;
use crate::dimension::Dimensionality;
use crate::direction::Direction;
use crate::id::IdMap;
use crate::id::TypedData;
use crate::id::contains_sorted;
use crate::id::insert_sorted;
use crate::id::spec_strictly_increasing;
use crate::map::GridMap;

verus! {

/// The tile types that may stand beside one tile type, direction by
/// direction.
pub struct Adjacencies<D: Dimensionality> {
    pub inner: Vec<Vec<u64>>,
    pub dimensionality: PhantomData<D>,
}

impl<D: Dimensionality> Adjacencies<D> {
    /// There is one list of tile types for each direction, each in strictly
    /// increasing order.
    pub open spec fn wf(&self) -> bool {
        &&& self.inner@.len() == D::Dir::spec_count()
        &&& forall|d: int|
            0 <= d < self.inner@.len() ==> spec_strictly_increasing((#[trigger] self.inner@[d])@)
    }

    /// Whether the tile type `id` may stand in the direction with the given
    /// index.
    pub open spec fn spec_contains(&self, direction: int, id: u64) -> bool {
        self.inner@[direction]@.contains(id)
    }

    /// Creates the adjacencies of a tile type beside which nothing may stand.
    pub fn new() -> (r: Self)
        ensures
            r.wf(),
            forall|d: int, id: u64| 0 <= d < D::Dir::spec_count() ==> !r.spec_contains(d, id),
    {
        let n: usize = D::Dir::count();
        let mut inner: Vec<Vec<u64>> = Vec::new();
        let mut d: usize = 0;
        while d < n
            invariant
                0 <= d <= n,
                inner@.len() == d,
                forall|k: int| 0 <= k < d ==> (#[trigger] inner@[k])@.len() == 0,
            decreases n - d,
        {
            inner.push(Vec::new());
            d = d + 1;
        }
        Self { inner, dimensionality: PhantomData }
    }

    /// Lets the tile type `id` stand in the direction.
    pub fn add_at_dir(&mut self, direction: D::Dir, id: u64)
        requires
            old(self).wf(),
        ensures
            final(self).wf(),
            forall|d: int, other: u64|
                0 <= d < D::Dir::spec_count() ==> (final(self).spec_contains(d, other) <==> (old(self).spec_contains(d, other) || (d == direction.spec_idx() && other == id))),
    {
        proof {
            direction.lemma_idx();
        }
        let at: usize = direction.as_idx();
        let ghost before = self.inner@;
        insert_sorted(&mut self.inner[at], id);
        proof {
            assert forall|d: int| 0 <= d < self.inner@.len() implies spec_strictly_increasing(
                (#[trigger] self.inner@[d])@,
            ) by {
                if d != at {
                    assert(self.inner@[d] == before[d]);
                }
            }
        }
    }

    /// Whether the tile type `id` may stand in the direction.
    pub fn contains(&self, direction: D::Dir, id: u64) -> (r: bool)
        requires
            self.wf(),
        ensures
            r == self.spec_contains(direction.spec_idx() as int, id),
    {
        proof {
            direction.lemma_idx();
        }
        contains_sorted(&self.inner[direction.as_idx()], id)
    }

    /// The tile types that may stand in the direction, in increasing order.
    pub fn at_dir(&self, direction: D::Dir) -> (r: &Vec<u64>)
        requires
            self.wf(),
        ensures
            r@ == self.inner@[direction.spec_idx() as int]@,
            spec_strictly_increasing(r@),
    {
        proof {
            direction.lemma_idx();
        }
        &self.inner[direction.as_idx()]
    }
}

/// For every tile type, the tile types that may stand beside it.
pub struct AdjacencyTable<D: Dimensionality> {
    pub inner: IdMap<Adjacencies<D>>,
}

impl<D: Dimensionality> AdjacencyTable<D> {
    /// The table is a well-formed map of well-formed adjacencies.
    pub open spec fn wf(&self) -> bool {
        &&& self.inner.wf()
        &&& forall|i: int|
            0 <= i < self.inner.values@.len() ==> (#[trigger] self.inner.values@[i]).wf()
    }

    /// Whether the tile type `adj_id` may stand beside the tile type `el_id`
    /// in the direction with the given index.
    pub open spec fn spec_allowed(&self, el_id: u64, direction: int, adj_id: u64) -> bool {
        self.inner.spec_contains(el_id) && self.inner.spec_get(el_id).spec_contains(
            direction,
            adj_id,
        )
    }

    /// Whether each rule has its mirror image: where `b` may stand beside `a`
    /// in a direction, `a` may stand beside `b` in the opposite direction.
    pub open spec fn spec_symmetric(&self) -> bool {
        forall|a: u64, d: int, b: u64|
            0 <= d < D::Dir::spec_count() && #[trigger] self.spec_allowed(a, d, b)
                ==> self.spec_allowed(
                b,
                D::Dir::spec_from_idx(d as nat).spec_opposite().spec_idx() as int,
                a,
            )
    }

    /// Creates a table without rules.
    pub fn new() -> (r: Self)
        ensures
            r.wf(),
            forall|a: u64, d: int, b: u64| !r.spec_allowed(a, d, b),
            r.spec_symmetric(),
    {
        Self { inner: IdMap::new() }
    }

    /// Records that the tile type `adj_id` may stand beside the tile type
    /// `el_id` in the direction. Every other rule stays as it is.
    pub fn insert_adjacency(&mut self, el_id: u64, direction: D::Dir, adj_id: u64)
        requires
            old(self).wf(),
        ensures
            final(self).wf(),
            forall|a: u64, d: int, b: u64|
                0 <= d < D::Dir::spec_count() ==> (#[trigger] final(self).spec_allowed(a, d, b) <==> (
                old(self).spec_allowed(a, d, b) || (a == el_id && d == direction.spec_idx() && b
                    == adj_id))),
    {
        match self.inner.find(el_id) {
            Some(at) => {
                let ghost before = self.inner.values@;
                self.inner.values[at].add_at_dir(direction, adj_id);
                proof {
                    assert forall|i: int| 0 <= i < self.inner.values@.len() implies (
                    #[trigger] self.inner.values@[i]).wf() by {
                        if i != at {
                            assert(self.inner.values@[i] == before[i]);
                        }
                    }
                    assert forall|a: u64, d: int, b: u64| 0 <= d < D::Dir::spec_count() implies (
                    #[trigger] self.spec_allowed(a, d, b) <==> (old(self).spec_allowed(a, d, b) || (a
                        == el_id && d == direction.spec_idx() && b == adj_id))) by {
                        if a != el_id && self.inner.spec_contains(a) {
                            let k = self.inner.spec_index_of(a);
                            assert(k != at);
                            assert(self.inner.values@[k] == before[k]);
                        }
                    }
                }
            },
            None => {
                let mut adjacencies: Adjacencies<D> = Adjacencies::new();
                adjacencies.add_at_dir(direction, adj_id);
                let ghost old_inner = self.inner;
                let _ = self.inner.insert(el_id, adjacencies);
                proof {
                    assert forall|i: int| 0 <= i < self.inner.values@.len() implies (
                    #[trigger] self.inner.values@[i]).wf() by {
                        let id = self.inner.ids@[i];
                        self.inner.lemma_index_unique(i);
                        if id != el_id {
                            assert(old_inner.spec_contains(id));
                            let k = old_inner.spec_index_of(id);
                            assert(self.inner.spec_get(id) == old_inner.spec_get(id));
                            assert(old_inner.values@[k].wf());
                        }
                    }
                }
            },
        }
    }

    /// Whether the tile type `adj_id` may stand beside the tile type `el_id`
    /// in the direction.
    pub fn is_allowed(&self, el_id: u64, direction: D::Dir, adj_id: u64) -> (r: bool)
        requires
            self.wf(),
        ensures
            r == self.spec_allowed(el_id, direction.spec_idx() as int, adj_id),
    {
        match self.inner.find(el_id) {
            Some(at) => self.inner.values[at].contains(direction, adj_id),
            None => false,
        }
    }

    /// The tile types that may stand beside the tile type `el_id` in the
    /// direction, in increasing order.
    pub fn get_all_adjacencies_in_direction(&self, el_id: u64, direction: D::Dir) -> (r: Vec<u64>)
        requires
            self.wf(),
        ensures
            spec_strictly_increasing(r@),
            forall|adj_id: u64|
                r@.contains(adj_id) <==> self.spec_allowed(el_id, direction.spec_idx() as int, adj_id),
    {
        let mut out: Vec<u64> = Vec::new();
        match self.inner.find(el_id) {
            Some(at) => {
                let list: &Vec<u64> = self.inner.values[at].at_dir(direction);
                let mut i: usize = 0;
                while i < list.len()
                    invariant
                        0 <= i <= list@.len(),
                        out@ == list@.take(i as int),
                    decreases list@.len() - i,
                {
                    out.push(list[i]);
                    proof {
                        assert(list@.take(i as int + 1) == list@.take(i as int).push(list@[i as int]));
                    }
                    i = i + 1;
                }
                proof {
                    assert(list@.take(list@.len() as int) == list@);
                }
            },
            None => {},
        }
        out
    }
}

/// Adjacency rules of the tile types of a kind of tile data.
pub struct AdjacencyRules<D: Dimensionality> {
    pub inner: AdjacencyTable<D>,
}

impl<D: Dimensionality> AdjacencyRules<D> {
    /// The rules are a well-formed table.
    pub open spec fn wf(&self) -> bool {
        self.inner.wf()
    }

    /// Whether each rule has its mirror image: where `b` may stand beside `a`
    /// in a direction, `a` may stand beside `b` in the opposite direction.
    pub open spec fn spec_symmetric(&self) -> bool {
        self.inner.spec_symmetric()
    }

    /// Whether the tile type `adjacent_id` may stand beside the tile type
    /// `tile_id` in the direction with the given index.
    pub open spec fn spec_allowed(&self, tile_id: u64, direction: int, adjacent_id: u64) -> bool {
        self.inner.spec_allowed(tile_id, direction, adjacent_id)
    }

    /// Creates a set of rules that lets nothing stand beside anything.
    pub fn new() -> (r: Self)
        ensures
            r.wf(),
            forall|a: u64, d: int, b: u64| !r.spec_allowed(a, d, b),
            r.spec_symmetric(),
    {
        Self { inner: AdjacencyTable::new() }
    }

    /// The table of the rules.
    pub fn inner(&self) -> (r: &AdjacencyTable<D>)
        ensures
            *r == self.inner,
    {
        &self.inner
    }

    /// Lets tiles of the type of `adjacent_tile` stand beside tiles of the
    /// type of `tile` in the direction.
    pub fn add_adjacency<Data: TypedData>(&mut self, tile: &Data, adjacent_tile: &Data, direction: D::Dir)
        requires
            old(self).wf(),
        ensures
            final(self).wf(),
            forall|a: u64, d: int, b: u64|
                0 <= d < D::Dir::spec_count() ==> (#[trigger] final(self).spec_allowed(a, d, b) <==> (
                old(self).spec_allowed(a, d, b) || (a == tile.spec_tile_type_id() && d
                    == direction.spec_idx() && b == adjacent_tile.spec_tile_type_id()))),
    {
        self.add_adjacency_raw(tile.tile_type_id(), adjacent_tile.tile_type_id(), direction)
    }

    /// Lets the tile type `adjacent_id` stand beside the tile type `tile_id`
    /// in the direction.
    pub fn add_adjacency_raw(&mut self, tile_id: u64, adjacent_id: u64, direction: D::Dir)
        requires
            old(self).wf(),
        ensures
            final(self).wf(),
            forall|a: u64, d: int, b: u64|
                0 <= d < D::Dir::spec_count() ==> (#[trigger] final(self).spec_allowed(a, d, b) <==> (
                old(self).spec_allowed(a, d, b) || (a == tile_id && d == direction.spec_idx() && b
                    == adjacent_id))),
    {
        self.inner.insert_adjacency(tile_id, direction, adjacent_id)
    }

    /// Whether the tile type `adjacent_id` may stand beside the tile type
    /// `tile_id` in the direction.
    pub fn is_valid_raw(&self, tile_id: u64, adjacent_id: u64, direction: D::Dir) -> (r: bool)
        requires
            self.wf(),
        ensures
            r == self.spec_allowed(tile_id, direction.spec_idx() as int, adjacent_id),
    {
        self.inner.is_allowed(tile_id, direction, adjacent_id)
    }

    /// Whether any of the tile types `adjacent_options` may stand beside the
    /// tile type `tile_id` in the direction.
    pub fn is_valid_raw_any(&self, tile_id: u64, adjacent_options: &[u64], direction: D::Dir) -> (r:
        bool)
        requires
            self.wf(),
        ensures
            r <==> exists|k: int|
                0 <= k < adjacent_options@.len() && self.spec_allowed(
                    tile_id,
                    direction.spec_idx() as int,
                    #[trigger] adjacent_options@[k],
                ),
    {
        let mut i: usize = 0;
        while i < adjacent_options.len()
            invariant
                self.wf(),
                0 <= i <= adjacent_options@.len(),
                forall|k: int|
                    0 <= k < i ==> !self.spec_allowed(
                        tile_id,
                        direction.spec_idx() as int,
                        #[trigger] adjacent_options@[k],
                    ),
            decreases adjacent_options@.len() - i,
        {
            if self.inner.is_allowed(tile_id, direction, adjacent_options[i]) {
                return true;
            }
            i = i + 1;
        }
        false
    }
}

/// Weights of tile types: how often each is to occur, relative to the
/// others.
pub struct FrequencyHints {
    pub weights: IdMap<u32>,
}

/// Sum of the first `n` weights.
pub open spec fn spec_sum_weights(weights: Seq<u32>, n: int) -> int
    decreases n,
{
    if n <= 0 {
        0
    } else {
        spec_sum_weights(weights, n - 1) + weights[n - 1]
    }
}

/// Changing one weight changes the sum by the difference.
pub proof fn lemma_sum_weights_update(weights: Seq<u32>, at: int, value: u32, n: int)
    requires
        0 <= at < weights.len(),
        0 <= n <= weights.len(),
    ensures
        spec_sum_weights(weights.update(at, value), n) == spec_sum_weights(weights, n) + if at < n {
            value - weights[at]
        } else {
            0int
        },
    decreases n,
{
    if n > 0 {
        lemma_sum_weights_update(weights, at, value, n - 1);
    }
}

/// Putting one more weight among the others adds it to the sum.
pub proof fn lemma_sum_weights_insert(weights: Seq<u32>, at: int, value: u32, n: int)
    requires
        0 <= at <= weights.len(),
        0 <= n <= weights.len() + 1,
    ensures
        spec_sum_weights(weights.insert(at, value), n) == if at < n {
            spec_sum_weights(weights, n - 1) + value
        } else {
            spec_sum_weights(weights, n)
        },
    decreases n,
{
    if n > 0 {
        lemma_sum_weights_insert(weights, at, value, n - 1);
    }
}

impl FrequencyHints {
    /// The weights are a well-formed map, and each of them is positive.
    pub open spec fn wf(&self) -> bool {
        &&& self.weights.wf()
        &&& forall|i: int| 0 <= i < self.weights.values@.len() ==> self.weights.values@[i] > 0
    }

    /// Whether the tile type has a weight.
    pub open spec fn spec_contains(&self, tile_type_id: u64) -> bool {
        self.weights.spec_contains(tile_type_id)
    }

    /// The weight of the tile type.
    pub open spec fn spec_weight(&self, tile_type_id: u64) -> u32 {
        self.weights.spec_get(tile_type_id)
    }

    /// Sum of all weights.
    pub open spec fn spec_total(&self) -> int {
        spec_sum_weights(self.weights.values@, self.weights.values@.len() as int)
    }

    /// Creates hints without any weight.
    pub fn new() -> (r: Self)
        ensures
            r.wf(),
            r.spec_total() == 0,
            forall|id: u64| !r.spec_contains(id),
    {
        Self { weights: IdMap::new() }
    }

    /// The weight of the tile type, if it has one.
    pub fn get_weight(&self, tile_type_id: u64) -> (r: Option<u32>)
        requires
            self.wf(),
        ensures
            r is Some <==> self.spec_contains(tile_type_id),
            r is Some ==> r->0 == self.spec_weight(tile_type_id),
    {
        match self.weights.get(tile_type_id) {
            Some(weight) => Some(*weight),
            None => None,
        }
    }

    /// Sum of all weights, unless it is too large for 32 bits.
    pub fn total_weight(&self) -> (r: Option<u32>)
        requires
            self.wf(),
        ensures
            r is Some <==> self.spec_total() <= u32::MAX,
            r is Some ==> r->0 == self.spec_total(),
    {
        let mut total: u32 = 0;
        let mut i: usize = 0;
        while i < self.weights.values.len()
            invariant
                0 <= i <= self.weights.values@.len(),
                total == spec_sum_weights(self.weights.values@, i as int),
            decreases self.weights.values@.len() - i,
        {
            let weight: u32 = self.weights.values[i];
            if weight > u32::MAX - total {
                proof {
                    lemma_sum_weights_mono(self.weights.values@, i as int + 1, self.weights.values@.len() as int);
                }
                return None;
            }
            total = total + weight;
            i = i + 1;
        }
        Some(total)
    }

    /// Gives the tile type the weight, in place of the weight that it had.
    pub fn set_weight(&mut self, tile_type_id: u64, weight: u32)
        requires
            old(self).wf(),
            weight > 0,
        ensures
            final(self).wf(),
            final(self).spec_contains(tile_type_id),
            final(self).spec_weight(tile_type_id) == weight,
            forall|other: u64|
                other != tile_type_id ==> (final(self).spec_contains(other) == old(self).spec_contains(
                    other,
                )),
            forall|other: u64|
                other != tile_type_id && old(self).spec_contains(other) ==> final(self).spec_weight(
                    other,
                ) == old(self).spec_weight(other),
            final(self).spec_total() == old(self).spec_total() + weight - if old(self).spec_contains(
                tile_type_id,
            ) {
                old(self).spec_weight(tile_type_id) as int
            } else {
                0int
            },
    {
        let ghost before = self.weights.values@;
        let at: usize = self.weights.insert(tile_type_id, weight);
        proof {
            if old(self).spec_contains(tile_type_id) {
                old(self).weights.lemma_index_unique(at as int);
                lemma_sum_weights_update(before, at as int, weight, before.len() as int);
            } else {
                lemma_sum_weights_insert(before, at as int, weight, before.len() as int + 1);
            }
        }
    }

    /// Counts one more tile of the tile type: gives the type a weight of
    /// one where it had none, else adds one to its weight.
    pub fn count_tile(&mut self, tile_type_id: u64)
        requires
            old(self).wf(),
            old(self).spec_total() < u32::MAX,
        ensures
            final(self).wf(),
            final(self).spec_contains(tile_type_id),
            final(self).spec_weight(tile_type_id) == if old(self).spec_contains(tile_type_id) {
                old(self).spec_weight(tile_type_id) + 1
            } else {
                1
            },
            forall|other: u64|
                other != tile_type_id ==> (final(self).spec_contains(other) == old(self).spec_contains(
                    other,
                )),
            forall|other: u64|
                other != tile_type_id && old(self).spec_contains(other) ==> final(self).spec_weight(
                    other,
                ) == old(self).spec_weight(other),
            final(self).spec_total() == old(self).spec_total() + 1,
    {
        let current: Option<u32> = self.get_weight(tile_type_id);
        match current {
            Some(weight) => {
                proof {
                    let at = self.weights.spec_index_of(tile_type_id);
                    lemma_sum_weights_mono(self.weights.values@, at + 1, self.weights.values@.len() as int);
                    lemma_sum_weights_mono(self.weights.values@, 0, at);
                }
                self.set_weight(tile_type_id, weight + 1);
            },
            None => {
                self.set_weight(tile_type_id, 1);
            },
        }
    }

    /// Gives the type of the tile the weight, in place of the weight that
    /// it had.
    pub fn set_weight_for_tile<Data: TypedData>(&mut self, tile: &Data, weight: u32)
        requires
            old(self).wf(),
            weight > 0,
        ensures
            final(self).wf(),
            final(self).spec_contains(tile.spec_tile_type_id()),
            final(self).spec_weight(tile.spec_tile_type_id()) == weight,
            forall|other: u64|
                other != tile.spec_tile_type_id() ==> (final(self).spec_contains(other) == old(self).spec_contains(other)),
            forall|other: u64|
                other != tile.spec_tile_type_id() && old(self).spec_contains(other) ==> final(self).spec_weight(other) == old(self).spec_weight(other),
    {
        self.set_weight(tile.tile_type_id(), weight)
    }
}

/// The sum of the first `n` weights is at most the sum of the first `m`,
/// for `n` not above `m`.
pub proof fn lemma_sum_weights_mono(weights: Seq<u32>, n: int, m: int)
    requires
        0 <= n <= m,
    ensures
        0 <= spec_sum_weights(weights, n) <= spec_sum_weights(weights, m),
    decreases m,
{
    if m > n {
        lemma_sum_weights_mono(weights, n, m - 1);
    } else if n > 0 {
        lemma_sum_weights_mono(weights, n - 1, n - 1);
    }
}

} // verus!
