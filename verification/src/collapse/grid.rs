//! Collapsed and collapsible grids.

use vstd::prelude::*;
use crate::collapse::error::CollapsibleGridError;
use crate::collapse::queue::propagator::PropagateItem;
use crate::collapse::queue::propagator::spec_cells_wf;
use crate::collapse::queue::propagator::spec_items_ok;
use crate::collapse::rules::AdjacencyRules;
use crate::collapse::rules::FrequencyHints;
use crate::collapse::table::PerOptionData;
use crate::collapse::tile::CollapsedTileData;
use crate::collapse::tile::CollapsibleTile;
use crate::dimension::Dimensionality;
use crate::direction::Direction;
use crate::id::IdDefault;
use crate::id::contains_sorted;
use crate::id::insert_sorted;
use crate::id::spec_strictly_increasing;
use crate::map::GridMap;
use crate::position::GridPosition;
use crate::size::GridSize;

verus! {

/// Grid of collapsed tiles, together with the tile types that have been put
/// into it.
pub struct CollapsedGrid<D: Dimensionality> {
    pub grid: GridMap<D, CollapsedTileData>,
    pub tile_type_ids: Vec<u64>,
}

/// Collapsed grid of two dimensions.
pub type CollapsedGrid2D = CollapsedGrid<crate::two_d::TwoDim>;

/// Collapsed grid of three dimensions.
pub type CollapsedGrid3D = CollapsedGrid<crate::three_d::ThreeDim>;

impl<D: Dimensionality> CollapsedGrid<D> {
    /// The grid is well-formed, the tile types are held in strictly
    /// increasing order, and the type of every tile of the grid is among
    /// them.
    pub open spec fn wf(&self) -> bool {
        &&& self.grid.wf()
        &&& spec_strictly_increasing(self.tile_type_ids@)
        &&& forall|o: int|
            0 <= o < self.grid.tiles@.len() && self.grid.tiles@[o] is Some
                ==> self.tile_type_ids@.contains((#[trigger] self.grid.tiles@[o])->0.tile_type_id)
    }

    /// Whether some tile of the grid has the tile type.
    pub open spec fn spec_holds_type(&self, id: u64) -> bool {
        exists|o: int|
            0 <= o < self.grid.tiles@.len() && (#[trigger] self.grid.tiles@[o]) is Some
                && self.grid.tiles@[o]->0.tile_type_id == id
    }

    /// Creates a collapsed grid of the given size without tiles.
    pub fn new(size: &D::Size) -> (r: Self)
        requires
            size.spec_count() <= usize::MAX,
        ensures
            r.wf(),
            r.grid.size == *size,
            r.tile_type_ids@.len() == 0,
            forall|o: int| 0 <= o < r.grid.tiles@.len() ==> r.grid.tiles@[o] is None,
    {
        Self { grid: GridMap::new(*size), tile_type_ids: Vec::new() }
    }

    /// The grid of the tiles.
    pub fn grid(&self) -> (r: &GridMap<D, CollapsedTileData>)
        ensures
            *r == self.grid,
    {
        &self.grid
    }

    /// The tile types that have been put into the grid, in increasing
    /// order.
    pub fn tile_type_ids(&self) -> (r: &Vec<u64>)
        ensures
            *r == self.tile_type_ids,
    {
        &self.tile_type_ids
    }

    /// Puts the tile at the position and records its tile type. Returns
    /// whether the position is valid; nothing changes where it is not.
    pub fn insert_data(&mut self, position: &D::Pos, data: CollapsedTileData) -> (r: bool)
        requires
            old(self).wf(),
        ensures
            final(self).wf(),
            final(self).grid.size == old(self).grid.size,
            r == old(self).grid.size.spec_valid(position),
            r ==> final(self).grid.tiles@ == old(self).grid.tiles@.update(
                old(self).grid.size.spec_offset(position) as int,
                Some(data),
            ),
            r ==> forall|id: u64|
                final(self).tile_type_ids@.contains(id) <==> (id == data.tile_type_id || old(self).tile_type_ids@.contains(id)),
            !r ==> final(self).grid.tiles@ == old(self).grid.tiles@ && final(self).tile_type_ids@
                == old(self).tile_type_ids@,
    {
        let ghost before = self.grid.tiles@;
        if self.grid.insert_data(position, data) {
            let ghost inserted = self.grid;
            insert_sorted(&mut self.tile_type_ids, data.tile_type_id);
            proof {
                let at = old(self).grid.size.spec_offset(position) as int;
                assert(self.grid == inserted);
                old(self).grid.size.lemma_offset_in_range(position);
                assert forall|o: int|
                    0 <= o < self.grid.tiles@.len() && self.grid.tiles@[o] is Some implies self.tile_type_ids@.contains(
                    (#[trigger] self.grid.tiles@[o])->0.tile_type_id,
                ) by {
                    if o != at {
                        assert(self.grid.tiles@[o] == before[o]);
                        assert(old(self).tile_type_ids@.contains(before[o]->0.tile_type_id));
                    }
                }
            }
            true
        } else {
            false
        }
    }

    /// Puts each of the tiles at its position, in the order of the slice;
    /// tiles at positions that are not valid are left out.
    pub fn insert_tiles(&mut self, tiles: &[(D::Pos, CollapsedTileData)])
        requires
            old(self).wf(),
        ensures
            final(self).wf(),
            final(self).grid.size == old(self).grid.size,
            forall|k: int|
                0 <= k < tiles@.len() && old(self).grid.size.spec_valid(&(#[trigger] tiles@[k]).0)
                    ==> final(self).grid.spec_at(tiles@[k].0) is Some,
            forall|p: D::Pos|
                (forall|k: int| 0 <= k < tiles@.len() ==> (#[trigger] tiles@[k]).0 != p) ==> final(self).grid.spec_at(p) == old(self).grid.spec_at(p),
            final(self).grid.tiles@ == spec_with_tiles::<D>(
                &old(self).grid.size,
                old(self).grid.tiles@,
                tiles@,
                tiles@.len() as int,
            ),
            forall|id: u64|
                final(self).tile_type_ids@.contains(id) <==> (old(self).tile_type_ids@.contains(id)
                    || exists|k: int|
                    0 <= k < tiles@.len() && old(self).grid.size.spec_valid(&(#[trigger] tiles@[k]).0)
                        && tiles@[k].1.tile_type_id == id),
    {
        let mut i: usize = 0;
        while i < tiles.len()
            invariant
                self.wf(),
                self.grid.size == old(self).grid.size,
                0 <= i <= tiles@.len(),
                self.grid.tiles@ == spec_with_tiles::<D>(
                    &old(self).grid.size,
                    old(self).grid.tiles@,
                    tiles@,
                    i as int,
                ),
                forall|id: u64|
                    self.tile_type_ids@.contains(id) <==> (old(self).tile_type_ids@.contains(id)
                        || exists|k: int|
                        0 <= k < i && old(self).grid.size.spec_valid(&(#[trigger] tiles@[k]).0)
                            && tiles@[k].1.tile_type_id == id),
                forall|k: int|
                    0 <= k < i && self.grid.size.spec_valid(&(#[trigger] tiles@[k]).0)
                        ==> self.grid.spec_at(tiles@[k].0) is Some,
                forall|p: D::Pos|
                    (forall|k: int| 0 <= k < i ==> (#[trigger] tiles@[k]).0 != p) ==> self.grid.spec_at(
                        p,
                    ) == old(self).grid.spec_at(p),
            decreases tiles@.len() - i,
        {
            let ghost before = self.grid;
            let ghost ids_before = self.tile_type_ids@;
            let position: D::Pos = tiles[i].0;
            self.insert_data(&position, tiles[i].1);
            proof {
                let size = self.grid.size;
                assert forall|id: u64|
                    self.tile_type_ids@.contains(id) <==> (old(self).tile_type_ids@.contains(id)
                        || exists|k: int|
                        0 <= k < i + 1 && size.spec_valid(&(#[trigger] tiles@[k]).0) && tiles@[k].1.tile_type_id
                            == id) by {
                    if ids_before.contains(id) && !old(self).tile_type_ids@.contains(id) {
                        let k = choose|k: int|
                            0 <= k < i && size.spec_valid(&(#[trigger] tiles@[k]).0)
                                && tiles@[k].1.tile_type_id == id;
                        assert(0 <= k < i + 1);
                    }
                    if exists|k: int|
                        0 <= k < i + 1 && size.spec_valid(&(#[trigger] tiles@[k]).0) && tiles@[k].1.tile_type_id
                            == id {
                        let k = choose|k: int|
                            0 <= k < i + 1 && size.spec_valid(&(#[trigger] tiles@[k]).0)
                                && tiles@[k].1.tile_type_id == id;
                        if k < i {
                            assert(ids_before.contains(id));
                        }
                    }
                }
                if size.spec_valid(&position) {
                    size.lemma_offset_in_range(&position);
                }
                assert forall|k: int|
                    0 <= k < i + 1 && size.spec_valid(&(#[trigger] tiles@[k]).0) implies self.grid.spec_at(
                    tiles@[k].0,
                ) is Some by {
                    size.lemma_offset_in_range(&tiles@[k].0);
                    if k < i {
                        assert(before.spec_at(tiles@[k].0) is Some);
                    }
                }
                assert forall|p: D::Pos|
                    (forall|k: int| 0 <= k < i + 1 ==> (#[trigger] tiles@[k]).0 != p) implies self.grid.spec_at(
                    p,
                ) == old(self).grid.spec_at(p) by {
                    assert(tiles@[i as int].0 != p);
                    assert forall|k: int| 0 <= k < i implies (#[trigger] tiles@[k]).0 != p by {
                        assert(0 <= k < i + 1);
                    }
                    assert(before.spec_at(p) == old(self).grid.spec_at(p));
                    if size.spec_valid(&p) && size.spec_valid(&position) {
                        size.lemma_pos_from_offset_of_offset(&p);
                        size.lemma_pos_from_offset_of_offset(&position);
                        size.lemma_offset_in_range(&p);
                    }
                }
            }
            i = i + 1;
        }
    }
}

/// The slots of a grid after the first `n` of the tiles have been put into
/// it one after the other, each at its position; a tile at a position that
/// is not valid is left out.
pub open spec fn spec_with_tiles<D: Dimensionality>(
    size: &D::Size,
    slots: Seq<Option<CollapsedTileData>>,
    tiles: Seq<(D::Pos, CollapsedTileData)>,
    n: int,
) -> Seq<Option<CollapsedTileData>>
    decreases n,
{
    if n <= 0 {
        slots
    } else {
        let before = spec_with_tiles::<D>(size, slots, tiles, n - 1);
        let tile = tiles[n - 1];
        if size.spec_valid(&tile.0) {
            before.update(size.spec_offset(&tile.0) as int, Some(tile.1))
        } else {
            before
        }
    }
}

/// Grid of collapsible tiles, together with the table of the options that
/// its cells can become.
pub struct CollapsibleTileGrid<D: Dimensionality> {
    pub grid: GridMap<D, CollapsibleTile<D>>,
    pub option_data: PerOptionData<D>,
}

/// Collapsible grid of two dimensions.
pub type CollapsibleTileGrid2D = CollapsibleTileGrid<crate::two_d::TwoDim>;

/// Collapsible grid of three dimensions.
pub type CollapsibleTileGrid3D = CollapsibleTileGrid<crate::three_d::ThreeDim>;

/// Whether every collapsed cell of `after` is the collapsed cell of `before`
/// at its place, and every other cell of `after` is empty.
pub open spec fn spec_only_collapsed<D: Dimensionality>(
    after: Seq<Option<CollapsibleTile<D>>>,
    before: Seq<Option<CollapsibleTile<D>>>,
) -> bool {
    &&& after.len() == before.len()
    &&& forall|o: int|
        0 <= o < before.len() ==> #[trigger] after[o] == if before[o] is Some
            && before[o]->0.collapsed_option is Some {
            before[o]
        } else {
            None
        }
}

impl<D: Dimensionality> CollapsibleTileGrid<D> {
    /// The table of options is well-formed, and so is every cell with
    /// respect to it.
    pub open spec fn wf(&self) -> bool {
        &&& self.option_data.wf()
        &&& spec_cells_wf(&self.grid, &self.option_data)
    }

    /// The option to which the cell at the position is collapsed, if there
    /// is a cell and it is collapsed.
    pub open spec fn spec_collapsed_at(&self, pos: D::Pos) -> Option<usize> {
        match self.grid.spec_at(pos) {
            Some(cell) => cell.collapsed_option,
            None => None,
        }
    }

    /// The tile type of a collapsed tile at the position, if there is a cell
    /// and it is collapsed.
    pub open spec fn spec_tile_at(&self, pos: D::Pos) -> Option<CollapsedTileData> {
        match self.spec_collapsed_at(pos) {
            Some(option_idx) => Some(
                CollapsedTileData { tile_type_id: self.option_data.ids@[option_idx as int] },
            ),
            None => None,
        }
    }

    /// Creates a grid of the given size without cells, for the options that
    /// have a weight in `frequencies`, with the neighbours that `adjacencies`
    /// permits.
    pub fn new_empty(size: D::Size, frequencies: &FrequencyHints, adjacencies: &AdjacencyRules<D>) -> (r:
        Self)
        requires
            size.spec_count() <= usize::MAX,
            frequencies.wf(),
            frequencies.spec_total() <= u32::MAX,
            adjacencies.wf(),
        ensures
            r.wf(),
            r.grid.size == size,
            forall|o: int| 0 <= o < r.grid.tiles@.len() ==> r.grid.tiles@[o] is None,
            r.option_data.ids@ == frequencies.weights.ids@,
            forall|i: int|
                0 <= i < r.option_data.ids@.len() ==> (#[trigger] r.option_data.opt_with_weight@[i]).count
                    == frequencies.weights.values@[i],
            forall|i: int, d: int, j: int|
                0 <= i < r.option_data.ids@.len() && 0 <= d < D::Dir::spec_count() && 0 <= j
                    < r.option_data.ids@.len() ==> (#[trigger] r.option_data.spec_allows(i, d, j)
                    <==> adjacencies.spec_allowed(r.option_data.ids@[i], d, r.option_data.ids@[j])),
            adjacencies.spec_symmetric() ==> r.option_data.spec_symmetric(),
    {
        let option_data: PerOptionData<D> = PerOptionData::populate(frequencies, adjacencies.inner());
        Self { grid: GridMap::new(size), option_data }
    }

    /// The table of the options of the grid.
    pub fn option_data(&self) -> (r: &PerOptionData<D>)
        ensures
            *r == self.option_data,
    {
        &self.option_data
    }

    /// The grid of the cells.
    pub fn grid(&self) -> (r: &GridMap<D, CollapsibleTile<D>>)
        ensures
            *r == self.grid,
    {
        &self.grid
    }

    /// Puts a cell that is collapsed to the tile type at the position, in
    /// place of what the grid held there.
    ///
    /// Returns `false`, and changes nothing, where the position is not valid
    /// or the tile type is no option of the grid.
    pub fn insert_collapsed(&mut self, position: &D::Pos, data: CollapsedTileData) -> (r: bool)
        requires
            old(self).wf(),
        ensures
            final(self).wf(),
            final(self).option_data == old(self).option_data,
            final(self).grid.size == old(self).grid.size,
            r == (old(self).grid.size.spec_valid(position) && old(self).option_data.ids@.contains(
                data.tile_type_id,
            )),
            !r ==> final(self).grid.tiles@ == old(self).grid.tiles@,
            r ==> {
                let at = old(self).grid.size.spec_offset(position) as int;
                &&& final(self).grid.tiles@.len() == old(self).grid.tiles@.len()
                &&& forall|o: int|
                    0 <= o < old(self).grid.tiles@.len() && o != at ==> final(self).grid.tiles@[o]
                        == old(self).grid.tiles@[o]
                &&& final(self).spec_tile_at(*position) == Some(data)
            },
    {
        match self.option_data.get_option_idx(data.tile_type_id) {
            Some(option_idx) => {
                let ghost before = self.grid.tiles@;
                let inserted: bool = self.grid.insert_data(
                    position,
                    CollapsibleTile::new_collapsed_data(option_idx),
                );
                proof {
                    if inserted {
                        let at = old(self).grid.size.spec_offset(position) as int;
                        self.grid.size.lemma_offset_in_range(position);
                        assert forall|o: int|
                            0 <= o < self.grid.tiles@.len() && self.grid.tiles@[o] is Some implies (
                        #[trigger] self.grid.tiles@[o])->0.wf(&self.option_data) by {
                            if o != at {
                                assert(self.grid.tiles@[o] == before[o]);
                            }
                        }
                    }
                }
                inserted
            },
            None => false,
        }
    }

    /// Empties every cell that is not collapsed.
    pub fn remove_uncollapsed(&mut self)
        requires
            old(self).wf(),
        ensures
            final(self).wf(),
            final(self).option_data == old(self).option_data,
            final(self).grid.size == old(self).grid.size,
            spec_only_collapsed(final(self).grid.tiles@, old(self).grid.tiles@),
    {
        let n: usize = self.grid.tiles.len();
        let mut i: usize = 0;
        while i < n
            invariant
                0 <= i <= n,
                n == self.grid.tiles@.len(),
                n == old(self).grid.tiles@.len(),
                self.option_data == old(self).option_data,
                self.grid.size == old(self).grid.size,
                forall|o: int| i <= o < n ==> self.grid.tiles@[o] == old(self).grid.tiles@[o],
                forall|o: int|
                    0 <= o < i ==> #[trigger] self.grid.tiles@[o] == if old(self).grid.tiles@[o] is Some
                        && old(self).grid.tiles@[o]->0.collapsed_option is Some {
                        old(self).grid.tiles@[o]
                    } else {
                        None
                    },
            decreases n - i,
        {
            let remove: bool = match &self.grid.tiles[i] {
                Some(cell) => !cell.is_collapsed(),
                None => false,
            };
            if remove {
                self.grid.tiles[i] = None;
            }
            i = i + 1;
        }
    }

    /// The positions of the cells that are collapsed, if `collapsed` holds,
    /// or that are not, if it does not; in the order of their offsets.
    pub fn retrieve_positions(&self, collapsed: bool) -> (r: Vec<D::Pos>)
        requires
            self.grid.wf(),
        ensures
            forall|k: int|
                0 <= k < r@.len() ==> self.grid.spec_at(#[trigger] r@[k]) is Some && (self.grid.spec_at(
                    r@[k],
                )->0.collapsed_option is Some) == collapsed,
            forall|p: D::Pos|
                self.grid.spec_at(p) is Some && (self.grid.spec_at(p)->0.collapsed_option is Some)
                    == collapsed ==> r@.contains(p),
            forall|i: int, j: int|
                0 <= i < j < r@.len() ==> self.grid.size.spec_offset(&r@[i])
                    < self.grid.size.spec_offset(&r@[j]),
    {
        let mut out: Vec<D::Pos> = Vec::new();
        let n: usize = self.grid.tiles.len();
        let mut i: usize = 0;
        while i < n
            invariant
                self.grid.wf(),
                0 <= i <= n,
                n == self.grid.tiles@.len(),
                forall|k: int|
                    0 <= k < out@.len() ==> self.grid.size.spec_valid(&#[trigger] out@[k])
                        && self.grid.size.spec_offset(&out@[k]) < i && self.grid.spec_at(out@[k]) is Some
                        && (self.grid.spec_at(out@[k])->0.collapsed_option is Some) == collapsed,
                forall|o: int|
                    0 <= o < i && self.grid.tiles@[o] is Some && (
                    self.grid.tiles@[o]->0.collapsed_option is Some) == collapsed ==> out@.contains(
                        self.grid.size.spec_pos_from_offset(o as nat),
                    ),
                forall|a: int, b: int|
                    0 <= a < b < out@.len() ==> self.grid.size.spec_offset(&out@[a])
                        < self.grid.size.spec_offset(&out@[b]),
            decreases n - i,
        {
            let wanted: bool = match &self.grid.tiles[i] {
                Some(cell) => cell.is_collapsed() == collapsed,
                None => false,
            };
            if wanted {
                let ghost before = out@;
                let p: D::Pos = self.grid.size.pos_from_offset(i);
                proof {
                    self.grid.size.lemma_offset_of_pos_from_offset(i as nat);
                }
                out.push(p);
                proof {
                    assert forall|o: int|
                        0 <= o < i + 1 && self.grid.tiles@[o] is Some && (
                        self.grid.tiles@[o]->0.collapsed_option is Some) == collapsed implies out@.contains(
                        self.grid.size.spec_pos_from_offset(o as nat),
                    ) by {
                        if o < i {
                            let q = self.grid.size.spec_pos_from_offset(o as nat);
                            let k = choose|k: int| 0 <= k < before.len() && before[k] == q;
                            assert(out@[k] == q);
                        } else {
                            assert(out@[before.len() as int] == p);
                        }
                    }
                }
            }
            i = i + 1;
        }
        proof {
            assert forall|p: D::Pos|
                self.grid.spec_at(p) is Some && (self.grid.spec_at(p)->0.collapsed_option is Some)
                    == collapsed implies out@.contains(p) by {
                self.grid.size.lemma_offset_in_range(&p);
                self.grid.size.lemma_pos_from_offset_of_offset(&p);
            }
        }
        out
    }

    /// The positions of the cells that are empty, in the order of their
    /// offsets.
    pub fn empty_positions(&self) -> (r: Vec<D::Pos>)
        requires
            self.grid.wf(),
        ensures
            r@ == self.grid.spec_positions(false),
            forall|k: int|
                0 <= k < r@.len() ==> self.grid.size.spec_valid(&#[trigger] r@[k]) && self.grid.spec_at(
                    r@[k],
                ) is None,
    {
        self.grid.get_all_empty_positions()
    }

    /// The collapsed tiles of the grid, each at its position.
    pub fn retrieve_collapsed(&self) -> (r: CollapsedGrid<D>)
        requires
            self.wf(),
        ensures
            r.wf(),
            r.grid.size == self.grid.size,
            forall|p: D::Pos| r.grid.spec_at(p) == self.spec_tile_at(p),
            spec_taken_from(&r, self),
            forall|id: u64| r.tile_type_ids@.contains(id) <==> r.spec_holds_type(id),
    {
        let n: usize = self.grid.tiles.len();
        let mut out: CollapsedGrid<D> = CollapsedGrid::new(self.grid.size());
        let mut i: usize = 0;
        while i < n
            invariant
                self.wf(),
                out.wf(),
                out.grid.size == self.grid.size,
                0 <= i <= n,
                n == self.grid.tiles@.len(),
                forall|o: int|
                    0 <= o < n ==> #[trigger] out.grid.tiles@[o] == if o < i && self.grid.tiles@[o] is Some
                        && self.grid.tiles@[o]->0.collapsed_option is Some {
                        Some(
                            CollapsedTileData {
                                tile_type_id: self.option_data.ids@[self.grid.tiles@[o]->0.collapsed_option->0 as int],
                            },
                        )
                    } else {
                        None
                    },
                forall|id: u64| out.tile_type_ids@.contains(id) <==> out.spec_holds_type(id),
            decreases n - i,
        {
            let ghost before = out;
            let collapsed: Option<usize> = match &self.grid.tiles[i] {
                Some(cell) => cell.collapse_idx(),
                None => None,
            };
            match collapsed {
                Some(option_idx) => {
                    let position: D::Pos = self.grid.size.pos_from_offset(i);
                    proof {
                        self.grid.size.lemma_offset_of_pos_from_offset(i as nat);
                        assert(self.grid.tiles@[i as int]->0.wf(&self.option_data));
                    }
                    let data: CollapsedTileData = CollapsedTileData::new(self.option_data.ids[option_idx]);
                    out.insert_data(&position, data);
                    proof {
                        assert forall|id: u64| out.tile_type_ids@.contains(id) <==> out.spec_holds_type(
                            id,
                        ) by {
                            if before.spec_holds_type(id) {
                                let o = choose|o: int|
                                    0 <= o < before.grid.tiles@.len() && (
                                    #[trigger] before.grid.tiles@[o]) is Some
                                        && before.grid.tiles@[o]->0.tile_type_id == id;
                                assert(out.grid.tiles@[o] is Some);
                            }
                            if id == data.tile_type_id {
                                assert(out.grid.tiles@[i as int] is Some);
                            }
                            if out.spec_holds_type(id) && id != data.tile_type_id {
                                let o = choose|o: int|
                                    0 <= o < out.grid.tiles@.len() && (#[trigger] out.grid.tiles@[o]) is Some
                                        && out.grid.tiles@[o]->0.tile_type_id == id;
                                assert(before.grid.tiles@[o] is Some);
                            }
                        }
                    }
                },
                None => {},
            }
            i = i + 1;
        }
        proof {
            assert forall|p: D::Pos| out.grid.spec_at(p) == self.spec_tile_at(p) by {
                if self.grid.size.spec_valid(&p) {
                    self.grid.size.lemma_offset_in_range(&p);
                }
            }
        }
        out
    }

    /// A grid of tile data created from the tile types of the collapsed
    /// tiles of this grid, each at its position.
    pub fn retrieve_ident_default<IT: IdDefault>(&self) -> (r: GridMap<D, IT>)
        requires
            self.wf(),
        ensures
            r.wf(),
            r.size == self.grid.size,
            forall|p: D::Pos|
                (#[trigger] r.spec_at(p)) is Some <==> self.spec_tile_at(p) is Some,
            forall|p: D::Pos|
                (#[trigger] r.spec_at(p)) is Some ==> r.spec_at(p)->0.spec_tile_type_id()
                    == self.spec_tile_at(p)->0.tile_type_id,
    {
        let n: usize = self.grid.tiles.len();
        let mut out: GridMap<D, IT> = GridMap::new(*self.grid.size());
        let mut i: usize = 0;
        while i < n
            invariant
                self.wf(),
                out.wf(),
                out.size == self.grid.size,
                0 <= i <= n,
                n == self.grid.tiles@.len(),
                forall|o: int|
                    0 <= o < n ==> ((#[trigger] out.tiles@[o]) is Some <==> (o < i
                        && self.grid.tiles@[o] is Some && self.grid.tiles@[o]->0.collapsed_option is Some)),
                forall|o: int|
                    0 <= o < n && (#[trigger] out.tiles@[o]) is Some ==> out.tiles@[o]->0.spec_tile_type_id()
                        == self.option_data.ids@[self.grid.tiles@[o]->0.collapsed_option->0 as int],
            decreases n - i,
        {
            let collapsed: Option<usize> = match &self.grid.tiles[i] {
                Some(cell) => cell.collapse_idx(),
                None => None,
            };
            match collapsed {
                Some(option_idx) => {
                    let position: D::Pos = self.grid.size.pos_from_offset(i);
                    proof {
                        self.grid.size.lemma_offset_of_pos_from_offset(i as nat);
                        assert(self.grid.tiles@[i as int]->0.wf(&self.option_data));
                    }
                    out.insert_data(&position, IT::tile_type_default(self.option_data.ids[option_idx]));
                },
                None => {},
            }
            i = i + 1;
        }
        proof {
            assert forall|p: D::Pos|
                (#[trigger] out.spec_at(p)) is Some <==> self.spec_tile_at(p) is Some by {
                if self.grid.size.spec_valid(&p) {
                    self.grid.size.lemma_offset_in_range(&p);
                }
            }
            assert forall|p: D::Pos| (#[trigger] out.spec_at(p)) is Some implies out.spec_at(
                p,
            )->0.spec_tile_type_id() == self.spec_tile_at(p)->0.tile_type_id by {
                if self.grid.size.spec_valid(&p) {
                    self.grid.size.lemma_offset_in_range(&p);
                }
            }
        }
        out
    }

    /// A grid of the tile data that the builder makes of the tile types of
    /// the collapsed tiles of this grid, each at its position.
    ///
    /// Fails with the first tile type, in the order of the offsets of the
    /// cells, that the builder cannot build.
    pub fn retrieve_ident<IT: crate::id::TypedData, B: crate::builders::IdentTileBuilder<IT>>(
        &self,
        builder: &B,
    ) -> (r: Result<GridMap<D, IT>, CollapsibleGridError<D>>)
        requires
            self.wf(),
            builder.spec_wf(),
        ensures
            r is Ok <==> forall|p: D::Pos|
                (#[trigger] self.spec_tile_at(p)) is Some ==> builder.spec_can_build(
                    self.spec_tile_at(p)->0.tile_type_id,
                ),
            r is Ok ==> {
                &&& r->Ok_0.wf()
                &&& r->Ok_0.size == self.grid.size
                &&& forall|p: D::Pos|
                    (#[trigger] r->Ok_0.spec_at(p)) is Some <==> self.spec_tile_at(p) is Some
                &&& forall|p: D::Pos|
                    (#[trigger] r->Ok_0.spec_at(p)) is Some ==> builder.spec_builds(
                        self.spec_tile_at(p)->0.tile_type_id,
                        r->Ok_0.spec_at(p)->0,
                    )
            },
            r is Err ==> r->Err_0.sizes is None && r->Err_0.position is None
                && r->Err_0.missing_type_ids is Some && r->Err_0.missing_type_ids->0@.len() == 1
                && !builder.spec_can_build(r->Err_0.missing_type_ids->0@[0]) && exists|p: D::Pos|
                (#[trigger] self.spec_tile_at(p)) == Some(
                    CollapsedTileData { tile_type_id: r->Err_0.missing_type_ids->0@[0] },
                ),
    {
        let n: usize = self.grid.tiles.len();
        let mut out: GridMap<D, IT> = GridMap::new(*self.grid.size());
        let mut i: usize = 0;
        while i < n
            invariant
                self.wf(),
                builder.spec_wf(),
                out.wf(),
                out.size == self.grid.size,
                0 <= i <= n,
                n == self.grid.tiles@.len(),
                forall|o: int|
                    0 <= o < n ==> ((#[trigger] out.tiles@[o]) is Some <==> (o < i
                        && self.grid.tiles@[o] is Some && self.grid.tiles@[o]->0.collapsed_option is Some)),
                forall|o: int|
                    0 <= o < n && (#[trigger] out.tiles@[o]) is Some ==> builder.spec_builds(
                        self.option_data.ids@[self.grid.tiles@[o]->0.collapsed_option->0 as int],
                        out.tiles@[o]->0,
                    ),
                forall|o: int|
                    0 <= o < i && (#[trigger] self.grid.tiles@[o]) is Some
                        && self.grid.tiles@[o]->0.collapsed_option is Some ==> builder.spec_can_build(
                        self.option_data.ids@[self.grid.tiles@[o]->0.collapsed_option->0 as int],
                    ),
            decreases n - i,
        {
            let collapsed: Option<usize> = match &self.grid.tiles[i] {
                Some(cell) => cell.collapse_idx(),
                None => None,
            };
            match collapsed {
                Some(option_idx) => {
                    let position: D::Pos = self.grid.size.pos_from_offset(i);
                    proof {
                        self.grid.size.lemma_offset_of_pos_from_offset(i as nat);
                        assert(self.grid.tiles@[i as int]->0.wf(&self.option_data));
                    }
                    match builder.build_tile(self.option_data.ids[option_idx]) {
                        Ok(data) => {
                            out.insert_data(&position, data);
                        },
                        Err(error) => {
                            let mut missing: Vec<u64> = Vec::new();
                            missing.push(self.option_data.ids[option_idx]);
                            proof {
                                assert(self.spec_tile_at(position) == Some(
                                    CollapsedTileData {
                                        tile_type_id: self.option_data.ids@[option_idx as int],
                                    },
                                ));
                            }
                            return Err(CollapsibleGridError::new_missing(missing));
                        },
                    }
                },
                None => {},
            }
            i = i + 1;
        }
        proof {
            assert forall|p: D::Pos| (#[trigger] self.spec_tile_at(p)) is Some implies builder.spec_can_build(
                self.spec_tile_at(p)->0.tile_type_id,
            ) by {
                self.grid.size.lemma_offset_in_range(&p);
                assert(self.grid.tiles@[self.grid.size.spec_offset(&p) as int] is Some);
            }
            assert forall|p: D::Pos|
                (#[trigger] out.spec_at(p)) is Some <==> self.spec_tile_at(p) is Some by {
                if self.grid.size.spec_valid(&p) {
                    self.grid.size.lemma_offset_in_range(&p);
                }
            }
            assert forall|p: D::Pos| (#[trigger] out.spec_at(p)) is Some implies builder.spec_builds(
                self.spec_tile_at(p)->0.tile_type_id,
                out.spec_at(p)->0,
            ) by {
                if self.grid.size.spec_valid(&p) {
                    self.grid.size.lemma_offset_in_range(&p);
                }
            }
        }
        Ok(out)
    }

    /// The tile types of `collapsed` that are no options of the grid, in
    /// increasing order.
    pub fn missing_type_ids(&self, collapsed: &CollapsedGrid<D>) -> (r: Vec<u64>)
        requires
            self.option_data.spec_shape(),
            collapsed.wf(),
        ensures
            spec_strictly_increasing(r@),
            forall|id: u64|
                r@.contains(id) <==> (collapsed.tile_type_ids@.contains(id)
                    && !self.option_data.ids@.contains(id)),
    {
        let mut out: Vec<u64> = Vec::new();
        let ids: &Vec<u64> = collapsed.tile_type_ids();
        let mut i: usize = 0;
        while i < ids.len()
            invariant
                self.option_data.spec_shape(),
                spec_strictly_increasing(ids@),
                0 <= i <= ids@.len(),
                spec_strictly_increasing(out@),
                forall|k: int|
                    0 <= k < out@.len() ==> !self.option_data.ids@.contains(#[trigger] out@[k])
                        && exists|m: int| 0 <= m < i && ids@[m] == out@[k],
                forall|m: int|
                    0 <= m < i && !self.option_data.ids@.contains(#[trigger] ids@[m]) ==> out@.contains(
                        ids@[m],
                    ),
            decreases ids@.len() - i,
        {
            let id: u64 = ids[i];
            if !contains_sorted(&self.option_data.ids, id) {
                let ghost before = out@;
                out.push(id);
                proof {
                    assert forall|a: int, b: int| 0 <= a < b < out@.len() implies out@[a] < out@[b] by {
                        if b == before.len() {
                            let m = choose|m: int| 0 <= m < i && ids@[m] == before[a];
                            assert(ids@[m] < ids@[i as int]);
                        } else {
                            assert(before[a] < before[b]);
                        }
                    }
                    assert forall|k: int| 0 <= k < out@.len() implies !self.option_data.ids@.contains(
                        #[trigger] out@[k],
                    ) && exists|m: int| 0 <= m < i + 1 && ids@[m] == out@[k] by {
                        if k < before.len() {
                            let m = choose|m: int| 0 <= m < i && ids@[m] == before[k];
                            assert(ids@[m] == out@[k]);
                        } else {
                            assert(ids@[i as int] == out@[k]);
                        }
                    }
                    assert forall|m: int|
                        0 <= m < i + 1 && !self.option_data.ids@.contains(
                            #[trigger] ids@[m],
                        ) implies out@.contains(ids@[m]) by {
                        if m < i {
                            let k = choose|k: int| 0 <= k < before.len() && before[k] == ids@[m];
                            assert(out@[k] == ids@[m]);
                        } else {
                            assert(out@[before.len() as int] == ids@[m]);
                        }
                    }
                }
            }
            i = i + 1;
        }
        proof {
            assert forall|id: u64|
                out@.contains(id) <==> (ids@.contains(id) && !self.option_data.ids@.contains(id)) by {
                if out@.contains(id) {
                    let k = choose|k: int| 0 <= k < out@.len() && out@[k] == id;
                    let m = choose|m: int| 0 <= m < i && ids@[m] == out@[k];
                    assert(ids@[m] == id);
                }
                if ids@.contains(id) && !self.option_data.ids@.contains(id) {
                    let m = choose|m: int| 0 <= m < ids@.len() && ids@[m] == id;
                    assert(out@.contains(ids@[m]));
                }
            }
        }
        out
    }

    /// Puts every tile of `collapsed` into the grid, as a collapsed cell at
    /// the position of the tile.
    ///
    /// Fails, and changes nothing, where `collapsed` is larger than the grid
    /// along some axis, or where some of its tile types are no options of the
    /// grid.
    pub fn populate_from_collapsed(&mut self, collapsed: &CollapsedGrid<D>) -> (r: Result<
        (),
        CollapsibleGridError<D>,
    >)
        requires
            old(self).wf(),
            collapsed.wf(),
        ensures
            final(self).wf(),
            final(self).option_data == old(self).option_data,
            final(self).grid.size == old(self).grid.size,
            r is Err ==> final(self).grid.tiles@ == old(self).grid.tiles@,
            spec_fits(collapsed, old(self)) <==> r is Ok,
            !spec_contained::<D>(&collapsed.grid.size, &old(self).grid.size) ==> r is Err
                && r->Err_0.sizes == Some((collapsed.grid.size, old(self).grid.size))
                && r->Err_0.missing_type_ids is None && r->Err_0.position is None,
            spec_contained::<D>(&collapsed.grid.size, &old(self).grid.size) && !spec_fits(
                collapsed,
                old(self),
            ) ==> r is Err && r->Err_0.sizes is None && r->Err_0.position is None
                && r->Err_0.missing_type_ids is Some && spec_strictly_increasing(
                r->Err_0.missing_type_ids->0@,
            ) && forall|id: u64|
                r->Err_0.missing_type_ids->0@.contains(id) <==> (collapsed.tile_type_ids@.contains(
                    id,
                ) && !old(self).option_data.ids@.contains(id)),
            r is Ok ==> forall|p: D::Pos|
                #[trigger] final(self).spec_tile_at(p) == if collapsed.grid.spec_at(p) is Some {
                    collapsed.grid.spec_at(p)
                } else {
                    old(self).spec_tile_at(p)
                },
            r is Ok ==> forall|p: D::Pos|
                collapsed.grid.spec_at(p) is None ==> #[trigger] final(self).grid.spec_at(p) == old(self).grid.spec_at(p),
    {
        if !collapsed.grid.size.is_contained_within(&self.grid.size) {
            return Err(CollapsibleGridError::new_wrong_size(collapsed.grid.size, self.grid.size));
        }
        let missing: Vec<u64> = self.missing_type_ids(collapsed);
        if missing.len() > 0 {
            proof {
                assert(missing@.contains(missing@[0]));
            }
            return Err(CollapsibleGridError::new_missing(missing));
        }
        proof {
            assert forall|id: u64|
                collapsed.tile_type_ids@.contains(id) implies self.option_data.ids@.contains(id) by {
                if !self.option_data.ids@.contains(id) {
                    assert(missing@.contains(id));
                    let k = choose|k: int| 0 <= k < missing@.len() && missing@[k] == id;
                    assert(false);
                }
            }
        }
        let n: usize = collapsed.grid.tiles.len();
        let source: D::Size = collapsed.grid.size;
        let mut i: usize = 0;
        while i < n
            invariant
                self.wf(),
                collapsed.wf(),
                self.option_data == old(self).option_data,
                self.grid.size == old(self).grid.size,
                source == collapsed.grid.size,
                spec_contained::<D>(&collapsed.grid.size, &self.grid.size),
                forall|id: u64|
                    collapsed.tile_type_ids@.contains(id) ==> self.option_data.ids@.contains(id),
                0 <= i <= n,
                n == collapsed.grid.tiles@.len(),
                forall|p: D::Pos|
                    #[trigger] self.spec_tile_at(p) == if collapsed.grid.spec_at(p) is Some
                        && source.spec_offset(&p) < i {
                        collapsed.grid.spec_at(p)
                    } else {
                        old(self).spec_tile_at(p)
                    },
                forall|p: D::Pos|
                    !(collapsed.grid.spec_at(p) is Some && source.spec_offset(&p) < i)
                        ==> #[trigger] self.grid.spec_at(p) == old(self).grid.spec_at(p),
            decreases n - i,
        {
            let tile: Option<CollapsedTileData> = collapsed.grid.tiles[i];
            match tile {
                Some(data) => {
                    let position: D::Pos = source.pos_from_offset(i);
                    let ghost before = *self;
                    proof {
                        source.lemma_offset_of_pos_from_offset(i as nat);
                        lemma_contained_valid::<D>(&source, &self.grid.size, &position);
                        assert(collapsed.tile_type_ids@.contains(
                            collapsed.grid.tiles@[i as int]->0.tile_type_id,
                        ));
                    }
                    let inserted: bool = self.insert_collapsed(&position, data);
                    proof {
                        let target = self.grid.size;
                        target.lemma_offset_in_range(&position);
                        assert forall|p: D::Pos|
                            #[trigger] self.spec_tile_at(p) == if collapsed.grid.spec_at(p) is Some
                                && source.spec_offset(&p) < i + 1 {
                                collapsed.grid.spec_at(p)
                            } else {
                                old(self).spec_tile_at(p)
                            } by {
                            if p != position {
                                lemma_other_position(&before.grid, &self.grid, position, p);
                                assert(before.spec_tile_at(p) == self.spec_tile_at(p));
                                if source.spec_valid(&p) {
                                    source.lemma_pos_from_offset_of_offset(&p);
                                }
                            }
                        }
                        assert forall|p: D::Pos|
                            !(collapsed.grid.spec_at(p) is Some && source.spec_offset(&p) < i + 1)
                                implies #[trigger] self.grid.spec_at(p) == old(self).grid.spec_at(
                            p,
                        ) by {
                            if p != position {
                                lemma_other_position(&before.grid, &self.grid, position, p);
                            }
                        }
                    }
                },
                None => {
                    proof {
                        assert forall|p: D::Pos|
                            #[trigger] self.spec_tile_at(p) == if collapsed.grid.spec_at(p) is Some
                                && source.spec_offset(&p) < i + 1 {
                                collapsed.grid.spec_at(p)
                            } else {
                                old(self).spec_tile_at(p)
                            } by {
                            if source.spec_valid(&p) && source.spec_offset(&p) == i {
                                assert(collapsed.grid.spec_at(p) is None);
                            }
                        }
                    }
                },
            }
            i = i + 1;
        }
        proof {
            assert forall|p: D::Pos|
                #[trigger] self.spec_tile_at(p) == if collapsed.grid.spec_at(p) is Some {
                    collapsed.grid.spec_at(p)
                } else {
                    old(self).spec_tile_at(p)
                } by {
                if source.spec_valid(&p) {
                    source.lemma_offset_in_range(&p);
                }
            }
            assert forall|p: D::Pos| collapsed.grid.spec_at(p) is None implies #[trigger] self.grid.spec_at(
                p,
            ) == old(self).grid.spec_at(p) by {}
        }
        Ok(())
    }

    /// Creates a grid of the size of `collapsed` that holds every tile of
    /// `collapsed` as a collapsed cell, and no other cell.
    ///
    /// Fails where some tile types of `collapsed` are no options under
    /// `frequencies`.
    pub fn new_from_collapsed(
        collapsed: &CollapsedGrid<D>,
        frequencies: &FrequencyHints,
        adjacencies: &AdjacencyRules<D>,
    ) -> (r: Result<Self, CollapsibleGridError<D>>)
        requires
            collapsed.wf(),
            frequencies.wf(),
            frequencies.spec_total() <= u32::MAX,
            adjacencies.wf(),
        ensures
            r is Ok <==> forall|id: u64|
                collapsed.tile_type_ids@.contains(id) ==> frequencies.spec_contains(id),
            r is Ok ==> {
                &&& r->Ok_0.wf()
                &&& r->Ok_0.grid.size == collapsed.grid.size
                &&& spec_holds_tiles_of(&r->Ok_0, collapsed)
                &&& adjacencies.spec_symmetric() ==> r->Ok_0.option_data.spec_symmetric()
                &&& r->Ok_0.option_data.ids@ == frequencies.weights.ids@
                &&& forall|p: D::Pos| #[trigger] r->Ok_0.spec_tile_at(p) == collapsed.grid.spec_at(p)
                &&& forall|p: D::Pos|
                    collapsed.grid.spec_at(p) is None ==> (#[trigger] r->Ok_0.grid.spec_at(p)) is None
            },
            r is Err ==> r->Err_0.missing_type_ids is Some && forall|id: u64|
                r->Err_0.missing_type_ids->0@.contains(id) <==> (collapsed.tile_type_ids@.contains(
                    id,
                ) && !frequencies.spec_contains(id)),
    {
        let cells: usize = collapsed.grid.tiles.len();
        let mut grid: Self = Self::new_empty(collapsed.grid.size, frequencies, adjacencies);
        proof {
            lemma_contained_refl::<D>(&collapsed.grid.size);
            assert forall|id: u64| frequencies.spec_contains(id) == grid.option_data.ids@.contains(
                id,
            ) by {}
        }
        let ghost empty = grid;
        match grid.populate_from_collapsed(collapsed) {
            Ok(_) => {
                proof {
                    assert(spec_fits(collapsed, &empty));
                    assert forall|id: u64|
                        collapsed.tile_type_ids@.contains(id) implies frequencies.spec_contains(id) by {
                        assert(empty.option_data.ids@.contains(id));
                    }
                    assert forall|p: D::Pos| #[trigger] grid.spec_tile_at(p) == collapsed.grid.spec_at(
                        p,
                    ) by {
                        if grid.grid.size.spec_valid(&p) {
                            grid.grid.size.lemma_offset_in_range(&p);
                        }
                        assert(empty.spec_tile_at(p) is None);
                    }
                    assert forall|p: D::Pos| collapsed.grid.spec_at(p) is None implies (
                    #[trigger] grid.grid.spec_at(p)) is None by {
                        if grid.grid.size.spec_valid(&p) {
                            grid.grid.size.lemma_offset_in_range(&p);
                        }
                        assert(empty.grid.spec_at(p) is None);
                    }
                }
                Ok(grid)
            },
            Err(error) => {
                proof {
                    assert(!spec_fits(collapsed, &empty));
                    let id = choose|id: u64|
                        collapsed.tile_type_ids@.contains(id) && !empty.option_data.ids@.contains(id);
                    assert(collapsed.tile_type_ids@.contains(id) && !frequencies.spec_contains(id));
                }
                Err(error)
            },
        }
    }
}

/// Whether the collapsible grid has the size of the collapsed grid and holds,
/// as its collapsed cells, the tiles of the collapsed grid, each at its
/// position.
pub open spec fn spec_holds_tiles_of<D: Dimensionality>(
    grid: &CollapsibleTileGrid<D>,
    collapsed: &CollapsedGrid<D>,
) -> bool {
    &&& grid.grid.size == collapsed.grid.size
    &&& forall|p: D::Pos| #[trigger] grid.spec_tile_at(p) == collapsed.grid.spec_at(p)
}

/// Whether the collapsed grid has the size of the collapsible grid and holds
/// the collapsed tiles of the collapsible grid, each at its position, and
/// nothing else.
pub open spec fn spec_taken_from<D: Dimensionality>(
    collapsed: &CollapsedGrid<D>,
    grid: &CollapsibleTileGrid<D>,
) -> bool {
    &&& collapsed.grid.size == grid.grid.size
    &&& forall|p: D::Pos| #[trigger] collapsed.grid.spec_at(p) == grid.spec_tile_at(p)
}

/// A collapsed grid that is made into a collapsible grid, from which the
/// collapsed tiles are taken again, comes back as it was: the same size, and
/// in every slot the same tile or none. The tile types on record afterwards
/// are those of the tiles of the grid, all of which were on record before.
pub proof fn lemma_collapsed_round_trip<D: Dimensionality>(
    collapsed: &CollapsedGrid<D>,
    grid: &CollapsibleTileGrid<D>,
    back: &CollapsedGrid<D>,
)
    requires
        collapsed.wf(),
        back.wf(),
        spec_holds_tiles_of(grid, collapsed),
        spec_taken_from(back, grid),
        forall|id: u64| back.tile_type_ids@.contains(id) <==> back.spec_holds_type(id),
    ensures
        back.grid.size == collapsed.grid.size,
        back.grid.tiles@ == collapsed.grid.tiles@,
        forall|id: u64| back.tile_type_ids@.contains(id) ==> collapsed.tile_type_ids@.contains(id),
{
    assert forall|o: int| 0 <= o < back.grid.tiles@.len() implies back.grid.tiles@[o]
        == collapsed.grid.tiles@[o] by {
        let p = collapsed.grid.size.spec_pos_from_offset(o as nat);
        collapsed.grid.size.lemma_offset_of_pos_from_offset(o as nat);
        assert(back.grid.spec_at(p) == grid.spec_tile_at(p));
        assert(grid.spec_tile_at(p) == collapsed.grid.spec_at(p));
    }
    assert(back.grid.tiles@ =~= collapsed.grid.tiles@);
    assert forall|id: u64| back.tile_type_ids@.contains(id) implies collapsed.tile_type_ids@.contains(
        id,
    ) by {
        assert(back.spec_holds_type(id));
        let o = choose|o: int|
            0 <= o < back.grid.tiles@.len() && (#[trigger] back.grid.tiles@[o]) is Some
                && back.grid.tiles@[o]->0.tile_type_id == id;
        assert(collapsed.grid.tiles@[o] is Some);
        assert(collapsed.tile_type_ids@.contains(collapsed.grid.tiles@[o]->0.tile_type_id));
    }
}

/// Whether every bound of `inner` is at most the matching bound of `outer`.
pub open spec fn spec_contained<D: Dimensionality>(inner: &D::Size, outer: &D::Size) -> bool {
    forall|i: int|
        0 <= i < D::Pos::spec_dims() ==> #[trigger] inner.spec_bounds()[i] <= outer.spec_bounds()[i]
}

/// Whether the collapsed grid can be put into the collapsible grid: it is
/// not larger along any axis, and each of its tile types is an option.
pub open spec fn spec_fits<D: Dimensionality>(
    collapsed: &CollapsedGrid<D>,
    grid: &CollapsibleTileGrid<D>,
) -> bool {
    &&& spec_contained::<D>(&collapsed.grid.size, &grid.grid.size)
    &&& forall|id: u64| collapsed.tile_type_ids@.contains(id) ==> grid.option_data.ids@.contains(id)
}

/// A position that is valid in a size is valid in every size that contains
/// the size.
pub proof fn lemma_contained_valid<D: Dimensionality>(inner: &D::Size, outer: &D::Size, pos: &D::Pos)
    requires
        spec_contained::<D>(inner, outer),
        inner.spec_valid(pos),
    ensures
        outer.spec_valid(pos),
{
    inner.lemma_valid(pos);
    outer.lemma_valid(pos);
    assert forall|i: int| 0 <= i < D::Pos::spec_dims() implies #[trigger] pos.spec_coords()[i]
        < outer.spec_bounds()[i] by {
        assert(pos.spec_coords()[i] < inner.spec_bounds()[i]);
        assert(inner.spec_bounds()[i] <= outer.spec_bounds()[i]);
    }
}

/// Every size contains itself.
pub proof fn lemma_contained_refl<D: Dimensionality>(size: &D::Size)
    ensures
        spec_contained::<D>(size, size),
{
}

/// A grid that differs from another in the cell at one valid position only
/// holds at every other position what the other holds.
pub proof fn lemma_other_position<D: Dimensionality, T: crate::tile::TileData>(
    before: &GridMap<D, T>,
    after: &GridMap<D, T>,
    changed: D::Pos,
    other: D::Pos,
)
    requires
        before.wf(),
        before.size == after.size,
        before.size.spec_valid(&changed),
        after.tiles@.len() == before.tiles@.len(),
        forall|o: int|
            0 <= o < before.tiles@.len() && o != before.size.spec_offset(&changed) ==> after.tiles@[o]
                == before.tiles@[o],
        other != changed,
    ensures
        after.spec_at(other) == before.spec_at(other),
{
    if before.size.spec_valid(&other) {
        before.size.lemma_pos_from_offset_of_offset(&other);
        before.size.lemma_pos_from_offset_of_offset(&changed);
        before.size.lemma_offset_in_range(&other);
    }
}

} // verus!
