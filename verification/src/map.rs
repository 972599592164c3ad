//! Dense maps of optional tile data.

use vstd::prelude::*;
use crate::dimension::Dimensionality;
use crate::direction::Direction;
use crate::position::GridPosition;
use crate::position::lemma_filter_push;
use crate::size::GridSize;
use crate::three_d::ThreeDim;
use crate::tile::Tile;
use crate::tile::TileData;
use crate::tile::TileMut;
use crate::tile::TileRef;
use crate::two_d::TwoDim;

verus! {

/// The numbers below `n` at which the slot of `tiles` is filled, if `filled`
/// holds, or empty, if it does not; in increasing order.
pub open spec fn spec_offsets_where<T>(tiles: Seq<Option<T>>, filled: bool, n: int) -> Seq<int> {
    Seq::new(n as nat, |i: int| i).filter(|i: int| (tiles[i] is Some) == filled)
}

/// Taking one more slot into account adds its offset, where the slot is as
/// asked for, and nothing else.
pub proof fn lemma_offsets_where_step<T>(tiles: Seq<Option<T>>, filled: bool, n: int)
    requires
        0 <= n,
    ensures
        spec_offsets_where(tiles, filled, n + 1) == if (tiles[n] is Some) == filled {
            spec_offsets_where(tiles, filled, n).push(n)
        } else {
            spec_offsets_where(tiles, filled, n)
        },
        spec_offsets_where(tiles, filled, 0) == Seq::<int>::empty(),
        spec_offsets_where(tiles, filled, n).len() <= n,
        forall|k: int|
            0 <= k < spec_offsets_where(tiles, filled, n).len() ==> 0 <= #[trigger] spec_offsets_where(
                tiles,
                filled,
                n,
            )[k] < n,
{
    let pred = |i: int| (tiles[i] is Some) == filled;
    let s0 = Seq::new(n as nat, |i: int| i);
    let s1 = Seq::new((n + 1) as nat, |i: int| i);
    assert(s1 =~= s0.push(n));
    lemma_filter_push(s0, n, pred);
    assert(Seq::new(0nat, |i: int| i).filter(pred) =~= Seq::<int>::empty()) by {
        reveal(Seq::filter);
    }
    s0.lemma_filter_len(pred);
    assert forall|k: int| 0 <= k < s0.filter(pred).len() implies 0 <= #[trigger] s0.filter(pred)[k]
        < n by {
        let v = s0.filter(pred)[k];
        assert(s0.filter(pred).contains(v));
        s0.lemma_filter_contains_rev(pred, v);
        assert(s0.contains(v));
        let j = choose|j: int| 0 <= j < s0.len() && s0[j] == v;
        assert(s0[j] == j);
    }
}

/// Mapping a sequence that ends in `a` maps the rest and then `a`.
pub proof fn lemma_map_values_push<A, B>(s: Seq<A>, a: A, f: spec_fn(A) -> B)
    ensures
        s.push(a).map_values(f) == s.map_values(f).push(f(a)),
{
    assert(s.push(a).map_values(f) =~= s.map_values(f).push(f(a)));
}

/// Grid of cells, each of which is empty or holds data.
///
/// The cells are stored in a flat buffer, each at the offset that the size of
/// the grid gives to its position.
pub struct GridMap<D: Dimensionality, Data: TileData> {
    pub size: D::Size,
    pub tiles: Vec<Option<Data>>,
}

/// Grid map of two dimensions.
pub type GridMap2D<Data> = GridMap<TwoDim, Data>;

/// Grid map of three dimensions.
pub type GridMap3D<Data> = GridMap<ThreeDim, Data>;

impl<D: Dimensionality, Data: TileData> GridMap<D, Data> {
    /// The buffer holds exactly one slot for each valid position.
    pub open spec fn wf(&self) -> bool {
        self.tiles@.len() == self.size.spec_count()
    }

    /// What the grid holds at a position: nothing at a position that is not
    /// valid, else the content of the slot of the position.
    pub open spec fn spec_at(&self, pos: D::Pos) -> Option<Data> {
        if self.size.spec_valid(&pos) {
            self.tiles@[self.size.spec_offset(&pos) as int]
        } else {
            None
        }
    }

    /// The positions at which the grid holds data, if `filled` holds, or at
    /// which it holds none, if it does not; in the order of their offsets.
    pub open spec fn spec_positions(&self, filled: bool) -> Seq<D::Pos> {
        spec_offsets_where(self.tiles@, filled, self.tiles@.len() as int).map_values(
            |o: int| self.size.spec_pos_from_offset(o as nat),
        )
    }

    /// What the neighbour of a position in a direction holds: nothing where
    /// the step leaves the grid, else what the grid holds where the step ends.
    pub open spec fn spec_neighbour(&self, pos: D::Pos, direction: D::Dir) -> Option<Data> {
        match direction.spec_march_step(&pos, &self.size) {
            Some(to) => self.spec_at(to),
            None => None,
        }
    }

    /// Indices of the directions in which a position has a neighbour that
    /// holds data, among the first `n` directions, in increasing order.
    pub open spec fn spec_neighbour_dirs(&self, pos: D::Pos, n: int) -> Seq<int> {
        Seq::new(n as nat, |i: int| i).filter(
            |i: int| self.spec_neighbour(pos, D::Dir::spec_from_idx(i as nat)) is Some,
        )
    }

    /// Creates a grid of the given size in which every cell is empty.
    pub fn new(size: D::Size) -> (r: Self)
        requires
            size.spec_count() <= usize::MAX,
        ensures
            r.wf(),
            r.size == size,
            forall|i: int| 0 <= i < r.tiles@.len() ==> r.tiles@[i] is None,
    {
        let count: usize = size.max_tile_count();
        let mut tiles: Vec<Option<Data>> = Vec::new();
        let mut i: usize = 0;
        while i < count
            invariant
                0 <= i <= count,
                tiles@.len() == i,
                forall|k: int| 0 <= k < tiles@.len() ==> tiles@[k] is None,
            decreases count - i,
        {
            tiles.push(None);
            i = i + 1;
        }
        Self { size, tiles }
    }

    /// The size of the grid.
    pub fn size(&self) -> (r: &D::Size)
        ensures
            *r == self.size,
    {
        &self.size
    }

    /// Offset of a valid position in the buffer.
    pub fn offset_of(&self, position: &D::Pos) -> (r: usize)
        requires
            self.wf(),
            self.size.spec_valid(position),
        ensures
            r == self.size.spec_offset(position),
            r < self.tiles@.len(),
    {
        let n: usize = self.tiles.len();
        proof {
            self.size.lemma_offset_in_range(position);
        }
        self.size.offset(position)
    }

    /// The data at a position, if the position is valid and its cell holds
    /// data.
    pub fn get_data_at_position(&self, position: &D::Pos) -> (r: Option<&Data>)
        requires
            self.wf(),
        ensures
            r is Some <==> self.spec_at(*position) is Some,
            r is Some ==> *r->0 == self.spec_at(*position)->0,
    {
        if !self.size.is_position_valid(position) {
            return None;
        }
        let off: usize = self.offset_of(position);
        self.tiles[off].as_ref()
    }

    /// The tile at a position, if the position is valid and its cell holds
    /// data.
    pub fn get_tile_at_position<'a>(&'a self, position: &D::Pos) -> (r: Option<TileRef<'a, D, Data>>)
        requires
            self.wf(),
        ensures
            r is Some <==> self.spec_at(*position) is Some,
            r is Some ==> r->0.position == *position && *r->0.data == self.spec_at(*position)->0,
    {
        match self.get_data_at_position(position) {
            Some(data) => Some(TileRef { position: *position, data }),
            None => None,
        }
    }

    /// Mutable access to the data at a position, if the position is valid and
    /// its cell holds data. No other cell changes.
    pub fn get_mut_data_at_position(&mut self, position: &D::Pos) -> (r: Option<&mut Data>)
        requires
            old(self).wf(),
        ensures
            final(self).size == old(self).size,
            r is Some <==> old(self).spec_at(*position) is Some,
            r is None ==> final(self).tiles@ == old(self).tiles@,
            r is Some ==> *r->0 == old(self).spec_at(*position)->0 && final(self).tiles@ == old(self).tiles@.update(
                old(self).size.spec_offset(position) as int,
                Some(*final(r->0)),
            ),
    {
        if !self.size.is_position_valid(position) {
            return None;
        }
        let off: usize = self.offset_of(position);
        self.tiles[off].as_mut()
    }

    /// Mutable access to the tile at a position, if the position is valid and
    /// its cell holds data. No other cell changes.
    pub fn get_mut_tile_at_position<'a>(&'a mut self, position: &D::Pos) -> (r: Option<
        TileMut<'a, D, Data>,
    >)
        requires
            old(self).wf(),
        ensures
            final(self).size == old(self).size,
            r is Some <==> old(self).spec_at(*position) is Some,
            r is None ==> final(self).tiles@ == old(self).tiles@,
            r is Some ==> r->0.position == *position && *r->0.data == old(self).spec_at(*position)->0
                && final(self).tiles@ == old(self).tiles@.update(
                old(self).size.spec_offset(position) as int,
                Some(*final(r->0.data)),
            ),
    {
        match self.get_mut_data_at_position(position) {
            Some(data) => Some(TileMut { position: *position, data }),
            None => None,
        }
    }

    /// The tiles at those of the given positions that are valid and hold
    /// data, in the order of the positions.
    pub fn get_tiles_at_positions<'a>(&'a self, positions: &[D::Pos]) -> (r: Vec<TileRef<'a, D, Data>>)
        requires
            self.wf(),
        ensures
            r@.map_values(|t: TileRef<'a, D, Data>| t.position) == positions@.filter(
                |p: D::Pos| self.spec_at(p) is Some,
            ),
            forall|k: int| 0 <= k < r@.len() ==> *(#[trigger] r@[k]).data == self.spec_at(r@[k].position)->0,
    {
        let mut out: Vec<TileRef<'a, D, Data>> = Vec::new();
        let mut i: usize = 0;
        let ghost pred = |p: D::Pos| self.spec_at(p) is Some;
        let ghost first = |t: TileRef<'a, D, Data>| t.position;
        proof {
            assert(positions@.take(0).filter(pred) =~= Seq::<D::Pos>::empty()) by {
                reveal(Seq::filter);
            }
            assert(out@.map_values(first) =~= Seq::<D::Pos>::empty());
        }
        while i < positions.len()
            invariant
                self.wf(),
                0 <= i <= positions@.len(),
                pred == |p: D::Pos| self.spec_at(p) is Some,
                first == |t: TileRef<'a, D, Data>| t.position,
                out@.map_values(first) == positions@.take(i as int).filter(pred),
                forall|k: int|
                    0 <= k < out@.len() ==> *(#[trigger] out@[k]).data == self.spec_at(out@[k].position)->0,
            decreases positions@.len() - i,
        {
            let ghost before = out@;
            proof {
                assert(positions@.take(i as int + 1) == positions@.take(i as int).push(
                    positions@[i as int],
                ));
                lemma_filter_push(positions@.take(i as int), positions@[i as int], pred);
            }
            match self.get_tile_at_position(&positions[i]) {
                Some(tile) => {
                    out.push(tile);
                    proof {
                        assert(out@.map_values(first) =~= before.map_values(first).push(
                            positions@[i as int],
                        ));
                    }
                },
                None => {},
            }
            i = i + 1;
        }
        proof {
            assert(positions@.take(positions@.len() as int) == positions@);
        }
        out
    }

    /// Puts the data into the cell at the position, in place of what the cell
    /// held. Returns whether the position is valid; nothing changes where it
    /// is not.
    pub fn insert_data(&mut self, position: &D::Pos, data: Data) -> (r: bool)
        requires
            old(self).wf(),
        ensures
            final(self).wf(),
            final(self).size == old(self).size,
            r == old(self).size.spec_valid(position),
            r ==> final(self).tiles@ == old(self).tiles@.update(
                old(self).size.spec_offset(position) as int,
                Some(data),
            ),
            !r ==> final(self).tiles@ == old(self).tiles@,
    {
        if !self.size.is_position_valid(position) {
            return false;
        }
        let off: usize = self.offset_of(position);
        self.tiles[off] = Some(data);
        true
    }

    /// Puts the tile into the cell at its position, in place of what the cell
    /// held. Returns whether the position is valid; nothing changes where it
    /// is not.
    pub fn insert_tile(&mut self, tile: Tile<D, Data>) -> (r: bool)
        requires
            old(self).wf(),
        ensures
            final(self).wf(),
            final(self).size == old(self).size,
            r == old(self).size.spec_valid(&tile.position),
            r ==> final(self).tiles@ == old(self).tiles@.update(
                old(self).size.spec_offset(&tile.position) as int,
                Some(tile.data),
            ),
            !r ==> final(self).tiles@ == old(self).tiles@,
    {
        let position: D::Pos = tile.position;
        self.insert_data(&position, tile.data)
    }

    /// Empties the cell at the position and returns the tile that it held, if
    /// the position is valid and the cell held data.
    pub fn remove_tile_at_position(&mut self, position: &D::Pos) -> (r: Option<Tile<D, Data>>)
        requires
            old(self).wf(),
        ensures
            final(self).wf(),
            final(self).size == old(self).size,
            r is Some <==> old(self).spec_at(*position) is Some,
            r is Some ==> r->0.position == *position && r->0.data == old(self).spec_at(*position)->0,
            old(self).size.spec_valid(position) ==> final(self).tiles@ == old(self).tiles@.update(
                old(self).size.spec_offset(position) as int,
                None,
            ),
            !old(self).size.spec_valid(position) ==> final(self).tiles@ == old(self).tiles@,
    {
        if !self.size.is_position_valid(position) {
            return None;
        }
        let off: usize = self.offset_of(position);
        match self.tiles[off].take() {
            Some(data) => Some(Tile { position: *position, data }),
            None => None,
        }
    }

    /// The tile of the neighbour of a position in a direction, if the step
    /// stays in the grid and ends at a cell that holds data.
    pub fn get_neighbour_at<'a>(&'a self, position: &D::Pos, direction: &D::Dir) -> (r: Option<
        TileRef<'a, D, Data>,
    >)
        requires
            self.wf(),
        ensures
            r is Some <==> self.spec_neighbour(*position, *direction) is Some,
            r is Some ==> Some(r->0.position) == direction.spec_march_step(position, &self.size) && *r->0.data
                == self.spec_neighbour(*position, *direction)->0,
    {
        match direction.march_step(position, &self.size) {
            Some(to) => self.get_tile_at_position(&to),
            None => None,
        }
    }

    /// Mutable access to the tile of the neighbour of a position in a
    /// direction, if the step stays in the grid and ends at a cell that holds
    /// data. No other cell changes.
    pub fn get_mut_neighbour_at<'a>(&'a mut self, position: &D::Pos, direction: &D::Dir) -> (r:
        Option<TileMut<'a, D, Data>>)
        requires
            old(self).wf(),
        ensures
            final(self).size == old(self).size,
            r is Some <==> old(self).spec_neighbour(*position, *direction) is Some,
            r is None ==> final(self).tiles@ == old(self).tiles@,
            r is Some ==> Some(r->0.position) == direction.spec_march_step(position, &old(self).size)
                && *r->0.data == old(self).spec_neighbour(*position, *direction)->0
                && final(self).tiles@ == old(self).tiles@.update(
                old(self).size.spec_offset(&r->0.position) as int,
                Some(*final(r->0.data)),
            ),
    {
        match direction.march_step(position, &self.size) {
            Some(to) => self.get_mut_tile_at_position(&to),
            None => None,
        }
    }

    /// The tiles of the neighbours of a position that hold data, in the
    /// order of the directions that lead to them.
    pub fn get_neighbours<'a>(&'a self, position: &D::Pos) -> (r: Vec<TileRef<'a, D, Data>>)
        requires
            self.wf(),
        ensures
            r@.len() == self.spec_neighbour_dirs(*position, D::Dir::spec_count() as int).len(),
            forall|k: int|
                0 <= k < r@.len() ==> {
                    let d = D::Dir::spec_from_idx(
                        self.spec_neighbour_dirs(*position, D::Dir::spec_count() as int)[k] as nat,
                    );
                    &&& Some((#[trigger] r@[k]).position) == d.spec_march_step(position, &self.size)
                    &&& *r@[k].data == self.spec_neighbour(*position, d)->0
                },
    {
        let mut out: Vec<TileRef<'a, D, Data>> = Vec::new();
        let n: usize = D::Dir::count();
        let mut i: usize = 0;
        let ghost pred = |i: int| self.spec_neighbour(*position, D::Dir::spec_from_idx(i as nat)) is Some;
        proof {
            assert(Seq::new(0nat, |i: int| i).filter(pred) =~= Seq::<int>::empty()) by {
                reveal(Seq::filter);
            }
        }
        while i < n
            invariant
                self.wf(),
                0 <= i <= n,
                n == D::Dir::spec_count(),
                pred == |i: int|
                    self.spec_neighbour(*position, D::Dir::spec_from_idx(i as nat)) is Some,
                out@.len() == self.spec_neighbour_dirs(*position, i as int).len(),
                forall|k: int|
                    0 <= k < out@.len() ==> {
                        let d = D::Dir::spec_from_idx(
                            self.spec_neighbour_dirs(*position, i as int)[k] as nat,
                        );
                        &&& Some((#[trigger] out@[k]).position) == d.spec_march_step(position, &self.size)
                        &&& *out@[k].data == self.spec_neighbour(*position, d)->0
                    },
            decreases n - i,
        {
            let direction: D::Dir = D::Dir::from_idx(i);
            proof {
                let s0 = Seq::new(i as nat, |i: int| i);
                let s1 = Seq::new((i + 1) as nat, |i: int| i);
                assert(s1 =~= s0.push(i as int));
                lemma_filter_push(s0, i as int, pred);
            }
            match self.get_neighbour_at(position, &direction) {
                Some(tile) => {
                    out.push(tile);
                },
                None => {},
            }
            i = i + 1;
        }
        out
    }

    /// Each of the positions of a kind is valid and is of that kind, and
    /// every valid position of that kind is among them.
    pub proof fn lemma_positions(&self, filled: bool)
        requires
            self.wf(),
        ensures
            forall|k: int|
                0 <= k < self.spec_positions(filled).len() ==> self.size.spec_valid(
                    &#[trigger] self.spec_positions(filled)[k],
                ) && (self.spec_at(self.spec_positions(filled)[k]) is Some) == filled,
            forall|p: D::Pos|
                self.size.spec_valid(&p) && (self.spec_at(p) is Some) == filled
                    ==> #[trigger] self.spec_positions(filled).contains(p),
    {
        let n = self.tiles@.len() as int;
        let offsets = spec_offsets_where(self.tiles@, filled, n);
        let all = Seq::new(n as nat, |i: int| i);
        let pred = |i: int| (self.tiles@[i] is Some) == filled;
        lemma_offsets_where_step(self.tiles@, filled, n);
        assert forall|k: int| 0 <= k < self.spec_positions(filled).len() implies self.size.spec_valid(
            &#[trigger] self.spec_positions(filled)[k],
        ) && (self.spec_at(self.spec_positions(filled)[k]) is Some) == filled by {
            let o = offsets[k];
            assert(offsets.contains(o));
            all.lemma_filter_contains_rev(pred, o);
            all.lemma_filter_pred(pred, k);
            self.size.lemma_offset_of_pos_from_offset(o as nat);
        }
        assert forall|p: D::Pos|
            self.size.spec_valid(&p) && (self.spec_at(p) is Some)
                == filled implies #[trigger] self.spec_positions(filled).contains(p) by {
            let o = self.size.spec_offset(&p) as int;
            self.size.lemma_offset_in_range(&p);
            self.size.lemma_pos_from_offset_of_offset(&p);
            assert(all[o] == o);
            assert(all.contains(o));
            assert(pred(o));
            all.lemma_filter_contains(pred, o);
            let k = choose|k: int| 0 <= k < offsets.len() && offsets[k] == o;
            assert(self.spec_positions(filled)[k] == p);
        }
    }

    /// The positions of the cells that hold data, in the order of their
    /// offsets.
    pub fn get_all_positions(&self) -> (r: Vec<D::Pos>)
        requires
            self.wf(),
        ensures
            r@ == self.spec_positions(true),
            forall|k: int|
                0 <= k < r@.len() ==> self.size.spec_valid(&#[trigger] r@[k]) && (self.spec_at(r@[k]) is Some)
                    == true,
    {
        self.positions_where(true)
    }

    /// The positions of the cells that are empty, in the order of their
    /// offsets.
    pub fn get_all_empty_positions(&self) -> (r: Vec<D::Pos>)
        requires
            self.wf(),
        ensures
            r@ == self.spec_positions(false),
            forall|k: int|
                0 <= k < r@.len() ==> self.size.spec_valid(&#[trigger] r@[k]) && (self.spec_at(r@[k]) is Some)
                    == false,
    {
        self.positions_where(false)
    }

    /// The positions of the cells that hold data, if `filled` holds, or that
    /// are empty, if it does not; in the order of their offsets.
    pub fn positions_where(&self, filled: bool) -> (r: Vec<D::Pos>)
        requires
            self.wf(),
        ensures
            r@ == self.spec_positions(filled),
            forall|k: int|
                0 <= k < r@.len() ==> self.size.spec_valid(&#[trigger] r@[k]) && (self.spec_at(r@[k]) is Some)
                    == filled,
    {
        proof {
            self.lemma_positions(filled);
        }
        let mut out: Vec<D::Pos> = Vec::new();
        let n: usize = self.tiles.len();
        let mut i: usize = 0;
        let ghost to_pos = |o: int| self.size.spec_pos_from_offset(o as nat);
        proof {
            lemma_offsets_where_step(self.tiles@, filled, 0);
            assert(out@ =~= spec_offsets_where(self.tiles@, filled, 0).map_values(to_pos));
        }
        while i < n
            invariant
                self.wf(),
                0 <= i <= n,
                n == self.tiles@.len(),
                to_pos == |o: int| self.size.spec_pos_from_offset(o as nat),
                out@ == spec_offsets_where(self.tiles@, filled, i as int).map_values(to_pos),
            decreases n - i,
        {
            proof {
                lemma_offsets_where_step(self.tiles@, filled, i as int);
            }
            if self.tiles[i].is_some() == filled {
                let ghost before = out@;
                let p: D::Pos = self.size.pos_from_offset(i);
                out.push(p);
                proof {
                    assert(out@ =~= spec_offsets_where(self.tiles@, filled, i as int + 1).map_values(
                        to_pos,
                    ));
                }
            }
            i = i + 1;
        }
        out
    }

    /// Every slot of the grid with its position, in the order of the
    /// offsets.
    pub fn indexed_iter<'a>(&'a self) -> (r: Vec<(D::Pos, &'a Option<Data>)>)
        requires
            self.wf(),
        ensures
            r@.len() == self.tiles@.len(),
            forall|o: int|
                0 <= o < r@.len() ==> (#[trigger] r@[o]).0 == self.size.spec_pos_from_offset(o as nat)
                    && *r@[o].1 == self.tiles@[o],
    {
        let mut out: Vec<(D::Pos, &'a Option<Data>)> = Vec::new();
        let n: usize = self.tiles.len();
        let mut i: usize = 0;
        while i < n
            invariant
                self.wf(),
                0 <= i <= n,
                n == self.tiles@.len(),
                out@.len() == i,
                forall|o: int|
                    0 <= o < i ==> (#[trigger] out@[o]).0 == self.size.spec_pos_from_offset(o as nat)
                        && *out@[o].1 == self.tiles@[o],
            decreases n - i,
        {
            let position: D::Pos = self.size.pos_from_offset(i);
            out.push((position, &self.tiles[i]));
            i = i + 1;
        }
        out
    }

    /// The tiles of the cells that hold data, in the order of their offsets.
    pub fn iter_tiles<'a>(&'a self) -> (r: Vec<TileRef<'a, D, Data>>)
        requires
            self.wf(),
        ensures
            r@.map_values(|t: TileRef<'a, D, Data>| t.position) == self.spec_positions(true),
            forall|k: int|
                0 <= k < r@.len() ==> Some(*(#[trigger] r@[k]).data) == self.tiles@[spec_offsets_where(
                    self.tiles@,
                    true,
                    self.tiles@.len() as int,
                )[k]],
    {
        let mut out: Vec<TileRef<'a, D, Data>> = Vec::new();
        let n: usize = self.tiles.len();
        let mut i: usize = 0;
        let ghost to_pos = |o: int| self.size.spec_pos_from_offset(o as nat);
        let ghost first = |t: TileRef<'a, D, Data>| t.position;
        proof {
            lemma_offsets_where_step(self.tiles@, true, 0);
            assert(out@.map_values(first) =~= spec_offsets_where(self.tiles@, true, 0).map_values(
                to_pos,
            ));
        }
        while i < n
            invariant
                self.wf(),
                0 <= i <= n,
                n == self.tiles@.len(),
                to_pos == |o: int| self.size.spec_pos_from_offset(o as nat),
                first == |t: TileRef<'a, D, Data>| t.position,
                out@.map_values(first) == spec_offsets_where(self.tiles@, true, i as int).map_values(
                    to_pos,
                ),
                out@.len() == spec_offsets_where(self.tiles@, true, i as int).len(),
                forall|k: int|
                    0 <= k < out@.len() ==> Some(*(#[trigger] out@[k]).data)
                        == self.tiles@[spec_offsets_where(self.tiles@, true, i as int)[k]],
            decreases n - i,
        {
            proof {
                lemma_offsets_where_step(self.tiles@, true, i as int);
            }
            match self.tiles[i].as_ref() {
                Some(data) => {
                    let p: D::Pos = self.size.pos_from_offset(i);
                    let ghost before = out@;
                    let tile = TileRef { position: p, data };
                    proof {
                        lemma_map_values_push(before, tile, first);
                        lemma_map_values_push(
                            spec_offsets_where(self.tiles@, true, i as int),
                            i as int,
                            to_pos,
                        );
                    }
                    out.push(tile);
                },
                None => {},
            }
            i = i + 1;
        }
        out
    }

    /// Takes the grid apart into the tiles of the cells that held data, in
    /// the order of their offsets.
    pub fn drain(self) -> (r: Vec<Tile<D, Data>>)
        requires
            self.wf(),
        ensures
            r@.map_values(|t: Tile<D, Data>| t.position) == self.spec_positions(true),
            forall|k: int|
                0 <= k < r@.len() ==> Some((#[trigger] r@[k]).data) == self.tiles@[spec_offsets_where(
                    self.tiles@,
                    true,
                    self.tiles@.len() as int,
                )[k]],
    {
        let ghost held = self.tiles@;
        let ghost size = self.size;
        let mut tiles: Vec<Option<Data>> = self.tiles;
        let grid_size: D::Size = self.size;
        let mut out: Vec<Tile<D, Data>> = Vec::new();
        let n: usize = tiles.len();
        let mut i: usize = 0;
        let ghost to_pos = |o: int| size.spec_pos_from_offset(o as nat);
        let ghost first = |t: Tile<D, Data>| t.position;
        proof {
            lemma_offsets_where_step(held, true, 0);
            assert(out@.map_values(first) =~= spec_offsets_where(held, true, 0).map_values(
                to_pos,
            ));
        }
        while i < n
            invariant
                0 <= i <= n,
                n == held.len(),
                n == size.spec_count(),
                grid_size == size,
                tiles@.len() == n,
                forall|k: int| i <= k < n ==> tiles@[k] == held[k],
                to_pos == |o: int| size.spec_pos_from_offset(o as nat),
                first == |t: Tile<D, Data>| t.position,
                out@.map_values(first) == spec_offsets_where(held, true, i as int).map_values(
                    to_pos,
                ),
                out@.len() == spec_offsets_where(held, true, i as int).len(),
                forall|k: int|
                    0 <= k < out@.len() ==> Some((#[trigger] out@[k]).data)
                        == held[spec_offsets_where(held, true, i as int)[k]],
            decreases n - i,
        {
            proof {
                lemma_offsets_where_step(held, true, i as int);
            }
            match tiles[i].take() {
                Some(data) => {
                    let p: D::Pos = grid_size.pos_from_offset(i);
                    let ghost before = out@;
                    let tile = Tile { position: p, data };
                    proof {
                        lemma_map_values_push(before, tile, first);
                        lemma_map_values_push(
                            spec_offsets_where(held, true, i as int),
                            i as int,
                            to_pos,
                        );
                    }
                    out.push(tile);
                },
                None => {},
            }
            i = i + 1;
        }
        out
    }

    /// Copies of the tiles of the cells that hold data, in the order of
    /// their offsets, each moved by the anchor: the position of a tile is
    /// the sum of the anchor and of the position of its cell. The grid stays
    /// as it is.
    pub fn get_remapped(&self, anchor_pos: D::Pos) -> (r: Vec<Tile<D, Data>>) where Data: Clone
        requires
            self.wf(),
            forall|k: int|
                0 <= k < self.spec_positions(true).len() ==> crate::position::spec_can_translate(
                    anchor_pos.spec_coords(),
                    (#[trigger] self.spec_positions(true)[k]).spec_coords(),
                ),
        ensures
            r@.len() == self.spec_positions(true).len(),
            forall|k: int|
                0 <= k < r@.len() ==> (#[trigger] r@[k]).position.spec_coords()
                    == crate::position::spec_translated(
                    anchor_pos.spec_coords(),
                    self.spec_positions(true)[k].spec_coords(),
                ) && cloned::<Data>(
                    self.tiles@[spec_offsets_where(self.tiles@, true, self.tiles@.len() as int)[k]]->0,
                    r@[k].data,
                ),
    {
        let mut out: Vec<Tile<D, Data>> = Vec::new();
        let n: usize = self.tiles.len();
        let mut i: usize = 0;
        proof {
            self.lemma_positions(true);
            lemma_offsets_where_step(self.tiles@, true, 0);
            assert forall|o: int|
                0 <= o < n && (#[trigger] self.tiles@[o]) is Some implies crate::position::spec_can_translate(
                anchor_pos.spec_coords(),
                self.size.spec_pos_from_offset(o as nat).spec_coords(),
            ) by {
                let p = self.size.spec_pos_from_offset(o as nat);
                self.size.lemma_offset_of_pos_from_offset(o as nat);
                assert(self.spec_positions(true).contains(p));
            }
        }
        while i < n
            invariant
                self.wf(),
                0 <= i <= n,
                n == self.tiles@.len(),
                forall|o: int|
                    0 <= o < n && (#[trigger] self.tiles@[o]) is Some
                        ==> crate::position::spec_can_translate(
                        anchor_pos.spec_coords(),
                        self.size.spec_pos_from_offset(o as nat).spec_coords(),
                    ),
                out@.len() == spec_offsets_where(self.tiles@, true, i as int).len(),
                forall|k: int|
                    0 <= k < out@.len() ==> {
                        let o = spec_offsets_where(self.tiles@, true, i as int)[k];
                        &&& 0 <= o < i
                        &&& self.tiles@[o] is Some
                        &&& (#[trigger] out@[k]).position.spec_coords()
                            == crate::position::spec_translated(
                            anchor_pos.spec_coords(),
                            self.size.spec_pos_from_offset(o as nat).spec_coords(),
                        )
                        &&& cloned::<Data>(self.tiles@[o]->0, out@[k].data)
                    },
            decreases n - i,
        {
            proof {
                lemma_offsets_where_step(self.tiles@, true, i as int);
            }
            match &self.tiles[i] {
                Some(data) => {
                    let cell: D::Pos = self.size.pos_from_offset(i);
                    let position: D::Pos = anchor_pos.translated(&cell);
                    out.push(Tile { position, data: data.clone() });
                },
                None => {},
            }
            i = i + 1;
        }
        out
    }

    /// Takes the grid apart into the tiles of the cells that held data, in
    /// the order of their offsets, each moved by the anchor: the position of
    /// a tile is the sum of the anchor and of the position of its cell.
    pub fn drain_remapped(self, anchor_pos: D::Pos) -> (r: Vec<Tile<D, Data>>)
        requires
            self.wf(),
            forall|k: int|
                0 <= k < self.spec_positions(true).len() ==> crate::position::spec_can_translate(
                    anchor_pos.spec_coords(),
                    (#[trigger] self.spec_positions(true)[k]).spec_coords(),
                ),
        ensures
            r@.len() == self.spec_positions(true).len(),
            forall|k: int|
                0 <= k < r@.len() ==> (#[trigger] r@[k]).position.spec_coords()
                    == crate::position::spec_translated(
                    anchor_pos.spec_coords(),
                    self.spec_positions(true)[k].spec_coords(),
                ) && Some(r@[k].data) == self.tiles@[spec_offsets_where(
                    self.tiles@,
                    true,
                    self.tiles@.len() as int,
                )[k]],
    {
        let ghost positions = self.spec_positions(true);
        let ghost held = self.tiles@;
        let mut tiles: Vec<Tile<D, Data>> = self.drain();
        let mut out: Vec<Tile<D, Data>> = Vec::new();
        let n: usize = tiles.len();
        let ghost drained = tiles@;
        proof {
            assert(drained.map_values(|t: Tile<D, Data>| t.position).len() == drained.len());
            assert forall|k: int| 0 <= k < drained.len() implies (#[trigger] drained[k]).position
                == positions[k] by {
                assert(drained.map_values(|t: Tile<D, Data>| t.position)[k] == drained[k].position);
            }
        }
        // the tiles are taken from the back and put in front of each other
        let mut reversed: Vec<Tile<D, Data>> = Vec::new();
        while tiles.len() > 0
            invariant
                n == drained.len(),
                tiles@.len() <= n,
                tiles@ == drained.take(tiles@.len() as int),
                reversed@.len() == n - tiles@.len(),
                forall|k: int|
                    0 <= k < reversed@.len() ==> {
                        let from = n - 1 - k;
                        &&& (#[trigger] reversed@[k]).position.spec_coords()
                            == crate::position::spec_translated(
                            anchor_pos.spec_coords(),
                            drained[from].position.spec_coords(),
                        )
                        &&& reversed@[k].data == drained[from].data
                    },
                forall|k: int|
                    0 <= k < drained.len() ==> (#[trigger] drained[k]).position == positions[k],
                positions.len() == n,
                forall|k: int|
                    0 <= k < positions.len() ==> crate::position::spec_can_translate(
                        anchor_pos.spec_coords(),
                        (#[trigger] positions[k]).spec_coords(),
                    ),
            decreases tiles@.len(),
        {
            let ghost before = tiles@;
            let tile: Tile<D, Data> = tiles.pop().unwrap();
            proof {
                assert(tile == drained[before.len() - 1]);
                assert(tiles@ =~= drained.take(tiles@.len() as int));
                assert(tile.position == positions[before.len() - 1]);
            }
            let position: D::Pos = anchor_pos.translated(&tile.position);
            reversed.push(Tile { position, data: tile.data });
        }
        while reversed.len() > 0
            invariant
                reversed@.len() + out@.len() == n,
                forall|k: int|
                    0 <= k < reversed@.len() ==> {
                        let from = n - 1 - k;
                        &&& (#[trigger] reversed@[k]).position.spec_coords()
                            == crate::position::spec_translated(
                            anchor_pos.spec_coords(),
                            drained[from].position.spec_coords(),
                        )
                        &&& reversed@[k].data == drained[from].data
                    },
                forall|k: int|
                    0 <= k < out@.len() ==> {
                        &&& (#[trigger] out@[k]).position.spec_coords()
                            == crate::position::spec_translated(
                            anchor_pos.spec_coords(),
                            drained[k].position.spec_coords(),
                        )
                        &&& out@[k].data == drained[k].data
                    },
            decreases reversed@.len(),
        {
            let tile: Tile<D, Data> = reversed.pop().unwrap();
            out.push(tile);
        }
        out
    }

    /// Fills every empty cell with what the function makes of the position
    /// of the cell. Cells that hold data stay as they are.
    pub fn fill_empty_using<F: Fn(D::Pos) -> Data>(&mut self, func: F)
        requires
            old(self).wf(),
            forall|p: D::Pos| old(self).size.spec_valid(&p) ==> #[trigger] func.requires((p,)),
        ensures
            final(self).wf(),
            final(self).size == old(self).size,
            forall|o: int|
                0 <= o < old(self).tiles@.len() ==> (#[trigger] final(self).tiles@[o]) is Some && (old(self).tiles@[o] is Some ==> final(self).tiles@[o] == old(self).tiles@[o]) && (old(self).tiles@[o] is None ==> func.ensures(
                    (old(self).size.spec_pos_from_offset(o as nat),),
                    final(self).tiles@[o]->0,
                )),
    {
        let n: usize = self.tiles.len();
        let mut i: usize = 0;
        while i < n
            invariant
                self.wf(),
                self.size == old(self).size,
                0 <= i <= n,
                n == self.tiles@.len(),
                forall|p: D::Pos| self.size.spec_valid(&p) ==> #[trigger] func.requires((p,)),
                forall|o: int| i <= o < n ==> self.tiles@[o] == old(self).tiles@[o],
                forall|o: int|
                    0 <= o < i ==> (#[trigger] self.tiles@[o]) is Some && (old(self).tiles@[o] is Some
                        ==> self.tiles@[o] == old(self).tiles@[o]) && (old(self).tiles@[o] is None
                        ==> func.ensures(
                        (old(self).size.spec_pos_from_offset(o as nat),),
                        self.tiles@[o]->0,
                    )),
            decreases n - i,
        {
            if self.tiles[i].is_none() {
                let position: D::Pos = self.size.pos_from_offset(i);
                proof {
                    self.size.lemma_offset_of_pos_from_offset(i as nat);
                }
                let data: Data = func(position);
                self.tiles[i] = Some(data);
            }
            i = i + 1;
        }
    }

    /// Fills every empty cell with a copy of the data. Cells that hold data
    /// stay as they are.
    pub fn fill_empty_with(&mut self, data: Data) where Data: Clone
        requires
            old(self).wf(),
        ensures
            final(self).wf(),
            final(self).size == old(self).size,
            forall|o: int|
                0 <= o < old(self).tiles@.len() ==> (#[trigger] final(self).tiles@[o]) is Some && (old(self).tiles@[o] is Some ==> final(self).tiles@[o] == old(self).tiles@[o]) && (old(self).tiles@[o] is None ==> cloned::<Data>(data, final(self).tiles@[o]->0)),
    {
        let n: usize = self.tiles.len();
        let mut i: usize = 0;
        while i < n
            invariant
                self.wf(),
                self.size == old(self).size,
                0 <= i <= n,
                n == self.tiles@.len(),
                forall|o: int| i <= o < n ==> self.tiles@[o] == old(self).tiles@[o],
                forall|o: int|
                    0 <= o < i ==> (#[trigger] self.tiles@[o]) is Some && (old(self).tiles@[o] is Some
                        ==> self.tiles@[o] == old(self).tiles@[o]) && (old(self).tiles@[o] is None
                        ==> cloned::<Data>(data, self.tiles@[o]->0)),
            decreases n - i,
        {
            if self.tiles[i].is_none() {
                self.tiles[i] = Some(data.clone());
            }
            i = i + 1;
        }
    }

    /// Fills every empty cell with the default of the data. Cells that hold
    /// data stay as they are.
    pub fn fill_empty_with_default(&mut self) where Data: Default
        requires
            old(self).wf(),
        ensures
            final(self).wf(),
            final(self).size == old(self).size,
            forall|o: int|
                0 <= o < old(self).tiles@.len() ==> (#[trigger] final(self).tiles@[o]) is Some && (old(self).tiles@[o] is Some ==> final(self).tiles@[o] == old(self).tiles@[o]),
    {
        let n: usize = self.tiles.len();
        let mut i: usize = 0;
        while i < n
            invariant
                self.wf(),
                self.size == old(self).size,
                0 <= i <= n,
                n == self.tiles@.len(),
                forall|o: int| i <= o < n ==> self.tiles@[o] == old(self).tiles@[o],
                forall|o: int|
                    0 <= o < i ==> (#[trigger] self.tiles@[o]) is Some && (old(self).tiles@[o] is Some
                        ==> self.tiles@[o] == old(self).tiles@[o]),
            decreases n - i,
        {
            if self.tiles[i].is_none() {
                self.tiles[i] = Some(Data::default());
            }
            i = i + 1;
        }
    }
}

impl<Data: TileData> GridMap<ThreeDim, Data> {
    /// Puts the tiles of a grid of two dimensions into the layer `z` of
    /// this grid, each at its `x` and `y`. Cells of the layer for which the
    /// given grid holds nothing stay as they are, and nothing changes where
    /// this grid has no layer `z`.
    pub fn insert_layer(&mut self, z: u32, layer: GridMap<TwoDim, Data>)
        requires
            old(self).wf(),
            layer.wf(),
            layer.size.x <= old(self).size.x,
            layer.size.y <= old(self).size.y,
            1 <= old(self).size.z,
        ensures
            final(self).wf(),
            final(self).size == old(self).size,
            forall|p: crate::three_d::GridPosition3D|
                #[trigger] final(self).spec_at(p) == if p.z == z && old(self).size.spec_valid(&p)
                    && layer.spec_at(crate::two_d::GridPosition2D { x: p.x, y: p.y }) is Some {
                    layer.spec_at(crate::two_d::GridPosition2D { x: p.x, y: p.y })
                } else {
                    old(self).spec_at(p)
                },
    {
        let ghost source = layer;
        let layer_size: crate::two_d::GridSize2D = layer.size;
        let mut tiles: Vec<Option<Data>> = layer.tiles;
        let n: usize = tiles.len();
        let mut i: usize = 0;
        while i < n
            invariant
                self.wf(),
                self.size == old(self).size,
                source.wf(),
                layer_size == source.size,
                layer_size.x <= self.size.x,
                layer_size.y <= self.size.y,
                0 <= i <= n,
                n == source.tiles@.len(),
                tiles@.len() == n,
                forall|o: int| i <= o < n ==> tiles@[o] == source.tiles@[o],
                forall|p: crate::three_d::GridPosition3D|
                    #[trigger] self.spec_at(p) == if p.z == z && old(self).size.spec_valid(&p)
                        && source.spec_at(crate::two_d::GridPosition2D { x: p.x, y: p.y }) is Some
                        && layer_size.spec_offset(&crate::two_d::GridPosition2D { x: p.x, y: p.y })
                        < i {
                        source.spec_at(crate::two_d::GridPosition2D { x: p.x, y: p.y })
                    } else {
                        old(self).spec_at(p)
                    },
            decreases n - i,
        {
            match tiles[i].take() {
                Some(data) => {
                    let flat: crate::two_d::GridPosition2D = layer_size.pos_from_offset(i);
                    let position = crate::three_d::GridPosition3D { x: flat.x, y: flat.y, z };
                    let ghost before = *self;
                    proof {
                        layer_size.lemma_offset_of_pos_from_offset(i as nat);
                    }
                    let inserted: bool = self.insert_data(&position, data);
                    proof {
                        assert forall|p: crate::three_d::GridPosition3D|
                            #[trigger] self.spec_at(p) == if p.z == z && old(self).size.spec_valid(
                                &p,
                            ) && source.spec_at(crate::two_d::GridPosition2D { x: p.x, y: p.y }) is Some
                                && layer_size.spec_offset(
                                &crate::two_d::GridPosition2D { x: p.x, y: p.y },
                            ) < i + 1 {
                                source.spec_at(crate::two_d::GridPosition2D { x: p.x, y: p.y })
                            } else {
                                old(self).spec_at(p)
                            } by {
                            let q = crate::two_d::GridPosition2D { x: p.x, y: p.y };
                            if self.size.spec_valid(&p) {
                                self.size.lemma_offset_in_range(&p);
                                self.size.lemma_pos_from_offset_of_offset(&p);
                            }
                            if inserted {
                                self.size.lemma_offset_in_range(&position);
                                self.size.lemma_pos_from_offset_of_offset(&position);
                            }
                            if layer_size.spec_valid(&q) {
                                layer_size.lemma_pos_from_offset_of_offset(&q);
                                layer_size.lemma_offset_in_range(&q);
                            }
                            assert(before.spec_at(p) == if p.z == z && old(self).size.spec_valid(&p)
                                && source.spec_at(q) is Some && layer_size.spec_offset(&q) < i {
                                source.spec_at(q)
                            } else {
                                old(self).spec_at(p)
                            });
                        }
                    }
                },
                None => {
                    proof {
                        assert forall|p: crate::three_d::GridPosition3D|
                            #[trigger] self.spec_at(p) == if p.z == z && old(self).size.spec_valid(
                                &p,
                            ) && source.spec_at(crate::two_d::GridPosition2D { x: p.x, y: p.y }) is Some
                                && layer_size.spec_offset(
                                &crate::two_d::GridPosition2D { x: p.x, y: p.y },
                            ) < i + 1 {
                                source.spec_at(crate::two_d::GridPosition2D { x: p.x, y: p.y })
                            } else {
                                old(self).spec_at(p)
                            } by {
                            let q = crate::two_d::GridPosition2D { x: p.x, y: p.y };
                            if layer_size.spec_valid(&q) && layer_size.spec_offset(&q) == i {
                                assert(source.spec_at(q) is None);
                            }
                        }
                    }
                },
            }
            i = i + 1;
        }
        proof {
            assert forall|p: crate::three_d::GridPosition3D|
                #[trigger] self.spec_at(p) == if p.z == z && old(self).size.spec_valid(&p)
                    && source.spec_at(crate::two_d::GridPosition2D { x: p.x, y: p.y }) is Some {
                    source.spec_at(crate::two_d::GridPosition2D { x: p.x, y: p.y })
                } else {
                    old(self).spec_at(p)
                } by {
                let q = crate::two_d::GridPosition2D { x: p.x, y: p.y };
                if layer_size.spec_valid(&q) {
                    layer_size.lemma_offset_in_range(&q);
                }
            }
        }
    }

    /// Takes the layer `z` out of this grid: returns a grid of two
    /// dimensions that holds the tiles of the layer, each at its `x` and
    /// `y`, and leaves the cells of the layer empty.
    pub fn remove_layer(&mut self, z: u32) -> (r: GridMap<TwoDim, Data>)
        requires
            old(self).wf(),
            old(self).size.x * old(self).size.y <= usize::MAX,
        ensures
            final(self).wf(),
            final(self).size == old(self).size,
            r.wf(),
            r.size.x == old(self).size.x,
            r.size.y == old(self).size.y,
            forall|q: crate::two_d::GridPosition2D|
                #[trigger] r.spec_at(q) == old(self).spec_at(
                    crate::three_d::GridPosition3D { x: q.x, y: q.y, z },
                ),
            forall|p: crate::three_d::GridPosition3D|
                #[trigger] final(self).spec_at(p) == if p.z == z {
                    None
                } else {
                    old(self).spec_at(p)
                },
    {
        let layer_size = crate::two_d::GridSize2D { x: self.size.x, y: self.size.y };
        let mut out: GridMap<TwoDim, Data> = GridMap::new(layer_size);
        let count: usize = out.tiles.len();
        let size: crate::three_d::GridSize3D = self.size;
        let mut i: usize = 0;
        proof {
            assert forall|q: crate::two_d::GridPosition2D| (#[trigger] out.spec_at(q)) is None by {
                if layer_size.spec_valid(&q) {
                    layer_size.lemma_offset_in_range(&q);
                }
            }
        }
        while i < count
            invariant
                self.wf(),
                self.size == old(self).size,
                size == self.size,
                out.wf(),
                out.size == layer_size,
                layer_size.x == size.x,
                layer_size.y == size.y,
                0 <= i <= count,
                count == out.tiles@.len(),
                forall|q: crate::two_d::GridPosition2D|
                    #[trigger] out.spec_at(q) == if layer_size.spec_valid(&q) && layer_size.spec_offset(
                        &q,
                    ) < i {
                        old(self).spec_at(crate::three_d::GridPosition3D { x: q.x, y: q.y, z })
                    } else {
                        None
                    },
                forall|p: crate::three_d::GridPosition3D|
                    #[trigger] self.spec_at(p) == if p.z == z && layer_size.spec_offset(
                        &crate::two_d::GridPosition2D { x: p.x, y: p.y },
                    ) < i {
                        None
                    } else {
                        old(self).spec_at(p)
                    },
            decreases count - i,
        {
            let flat: crate::two_d::GridPosition2D = layer_size.pos_from_offset(i);
            let position = crate::three_d::GridPosition3D { x: flat.x, y: flat.y, z };
            let ghost self_before = *self;
            let ghost out_before = out;
            proof {
                layer_size.lemma_offset_of_pos_from_offset(i as nat);
            }
            let removed: Option<Tile<ThreeDim, Data>> = self.remove_tile_at_position(&position);
            match removed {
                Some(tile) => {
                    out.insert_data(&flat, tile.data);
                },
                None => {},
            }
            proof {
                assert forall|q: crate::two_d::GridPosition2D|
                    #[trigger] out.spec_at(q) == if layer_size.spec_valid(&q) && layer_size.spec_offset(
                        &q,
                    ) < i + 1 {
                        old(self).spec_at(crate::three_d::GridPosition3D { x: q.x, y: q.y, z })
                    } else {
                        None
                    } by {
                    if layer_size.spec_valid(&q) {
                        layer_size.lemma_pos_from_offset_of_offset(&q);
                        layer_size.lemma_offset_in_range(&q);
                    }
                    assert(out_before.spec_at(q) == if layer_size.spec_valid(&q)
                        && layer_size.spec_offset(&q) < i {
                        old(self).spec_at(crate::three_d::GridPosition3D { x: q.x, y: q.y, z })
                    } else {
                        None
                    });
                    let p = crate::three_d::GridPosition3D { x: q.x, y: q.y, z };
                    assert(self_before.spec_at(p) == if p.z == z && layer_size.spec_offset(
                        &crate::two_d::GridPosition2D { x: p.x, y: p.y },
                    ) < i {
                        None
                    } else {
                        old(self).spec_at(p)
                    });
                }
                assert forall|p: crate::three_d::GridPosition3D|
                    #[trigger] self.spec_at(p) == if p.z == z && layer_size.spec_offset(
                        &crate::two_d::GridPosition2D { x: p.x, y: p.y },
                    ) < i + 1 {
                        None
                    } else {
                        old(self).spec_at(p)
                    } by {
                    let q = crate::two_d::GridPosition2D { x: p.x, y: p.y };
                    if size.spec_valid(&p) {
                        size.lemma_offset_in_range(&p);
                        size.lemma_pos_from_offset_of_offset(&p);
                        layer_size.lemma_pos_from_offset_of_offset(&q);
                    }
                    if size.spec_valid(&position) {
                        size.lemma_offset_in_range(&position);
                        size.lemma_pos_from_offset_of_offset(&position);
                    }
                    assert(self_before.spec_at(p) == if p.z == z && layer_size.spec_offset(&q) < i {
                        None
                    } else {
                        old(self).spec_at(p)
                    });
                }
            }
            i = i + 1;
        }
        proof {
            assert forall|q: crate::two_d::GridPosition2D|
                #[trigger] out.spec_at(q) == old(self).spec_at(
                    crate::three_d::GridPosition3D { x: q.x, y: q.y, z },
                ) by {
                if layer_size.spec_valid(&q) {
                    layer_size.lemma_offset_in_range(&q);
                }
            }
            assert forall|p: crate::three_d::GridPosition3D|
                #[trigger] self.spec_at(p) == if p.z == z {
                    None
                } else {
                    old(self).spec_at(p)
                } by {
                let q = crate::two_d::GridPosition2D { x: p.x, y: p.y };
                if size.spec_valid(&p) {
                    layer_size.lemma_offset_in_range(&q);
                }
            }
        }
        out
    }
}

} // verus!
