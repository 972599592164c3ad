//! Random walk over the cells of a grid.
//!
//! A walker stands on a position of a grid. With every walk it draws a
//! direction and a number of steps at random and marches that way; the
//! positions that it passes are kept. A walk that would leave the grid is
//! not made at all.

use vstd::prelude::*;
use rand::rngs::StdRng;
use crate::collapse::random::sample_uniform_usize;
use crate::dimension::Dimensionality;
use crate::direction::Direction;
use crate::map::GridMap;
use crate::position::GridPosition;
use crate::size::GridSize;
use crate::tile::TileData;

verus! {

/// Where `steps` steps in the direction lead from the position, or `None`
/// where one of them would leave the bounds of `size`.
pub open spec fn spec_march<D: Dimensionality>(
    size: &D::Size,
    from: D::Pos,
    direction: D::Dir,
    steps: nat,
) -> Option<D::Pos>
    decreases steps,
{
    if steps == 0 {
        Some(from)
    } else {
        match spec_march::<D>(size, from, direction, (steps - 1) as nat) {
            Some(position) => direction.spec_march_step(&position, size),
            None => None,
        }
    }
}

/// Number of steps of a walk of the given step size: one less than the
/// step size, and none for a step size of zero.
pub open spec fn spec_steps(step_size: int) -> nat {
    if step_size <= 1 {
        0
    } else {
        (step_size - 1) as nat
    }
}

/// Whether a walk of `steps` steps in the direction passes the position
/// after its start.
pub open spec fn spec_passes<D: Dimensionality>(
    size: &D::Size,
    from: D::Pos,
    direction: D::Dir,
    steps: nat,
    position: D::Pos,
) -> bool {
    exists|k: nat| 1 <= k <= steps && #[trigger] spec_march::<D>(size, from, direction, k) == Some(position)
}

/// A march that has left the bounds does not come back: where fewer steps
/// lead nowhere, more steps lead nowhere.
pub proof fn lemma_march_stays_out<D: Dimensionality>(
    size: &D::Size,
    from: D::Pos,
    direction: D::Dir,
    fewer: nat,
    more: nat,
)
    requires
        fewer <= more,
        spec_march::<D>(size, from, direction, fewer) is None,
    ensures
        spec_march::<D>(size, from, direction, more) is None,
    decreases more,
{
    if fewer < more {
        lemma_march_stays_out::<D>(size, from, direction, fewer, (more - 1) as nat);
    }
}

/// A field of the builder of a walker.
#[derive(Debug, Clone, Copy, PartialEq, Eq, Structural)]
pub enum WalkerField {
    Size,
    Rng,
}

/// The fields that a builder was not given and cannot do without.
#[derive(Debug, Clone)]
pub struct BuilderError {
    pub missing_fields: Vec<WalkerField>,
}

impl BuilderError {
    /// An error without missing fields.
    pub fn new() -> (r: Self)
        ensures
            r.missing_fields@.len() == 0,
    {
        Self { missing_fields: Vec::new() }
    }

    /// Records that the field is missing.
    pub fn add_missing_field(&mut self, field: WalkerField)
        ensures
            final(self).missing_fields@ == old(self).missing_fields@.push(field),
    {
        self.missing_fields.push(field);
    }

    /// Fails with this error if it holds a missing field.
    pub fn try_throw(self) -> (r: Result<(), Self>)
        ensures
            r is Ok <==> self.missing_fields@.len() == 0,
            r is Err ==> r->Err_0 == self,
    {
        if self.missing_fields.len() == 0 {
            Ok(())
        } else {
            Err(self)
        }
    }
}

/// Walker over the positions of a grid.
pub struct GridWalker<D: Dimensionality> {
    pub current_pos: D::Pos,
    pub walked: Vec<D::Pos>,
    pub rng: StdRng,
    pub size: D::Size,
    pub min_step_size: usize,
    pub max_step_size: usize,
    pub iters: u32,
}

/// Whether `after` is what a walk of `steps` steps in the direction makes
/// of `before`, and `moved` tells whether the walk was made.
///
/// Where the steps stay within the bounds the walker stands at their end,
/// and has walked the positions that it had walked and those that it has
/// passed. Where they do not, the walker stays where it was.
pub open spec fn spec_walked_by<D: Dimensionality>(
    before: &GridWalker<D>,
    after: &GridWalker<D>,
    moved: bool,
    direction: D::Dir,
    steps: nat,
) -> bool {
    match spec_march::<D>(&before.size, before.current_pos, direction, steps) {
        Some(end) => {
            &&& moved
            &&& after.current_pos == end
            &&& forall|p: D::Pos|
                #[trigger] after.walked@.contains(p) <==> (before.walked@.contains(p) || spec_passes::<D>(
                    &before.size,
                    before.current_pos,
                    direction,
                    steps,
                    p,
                ))
        },
        None => {
            &&& !moved
            &&& after.current_pos == before.current_pos
            &&& after.walked@ == before.walked@
        },
    }
}

impl<D: Dimensionality> GridWalker<D> {
    /// No position is held twice as walked, and the step sizes are in
    /// order.
    pub open spec fn wf(&self) -> bool {
        &&& self.walked@.no_duplicates()
        &&& self.min_step_size <= self.max_step_size < usize::MAX
    }

    /// Number of walks that were asked for.
    pub fn current_iters(&self) -> (r: u32)
        ensures
            r == self.iters,
    {
        self.iters
    }

    /// Whether the position is held as walked.
    pub fn has_walked(&self, position: &D::Pos) -> (r: bool)
        ensures
            r == self.walked@.contains(*position),
    {
        let mut i: usize = 0;
        while i < self.walked.len()
            invariant
                0 <= i <= self.walked@.len(),
                forall|k: int| 0 <= k < i ==> self.walked@[k] != *position,
            decreases self.walked@.len() - i,
        {
            if self.walked[i].same(position) {
                return true;
            }
            i = i + 1;
        }
        false
    }

    /// Walks once: draws a direction and, where the step sizes differ, a
    /// step size between them, and marches one step less than the step
    /// size in that direction. Returns whether the walk stayed within the
    /// grid; a walk that did not is not made.
    pub fn walk(&mut self) -> (r: bool)
        requires
            old(self).wf(),
            old(self).iters < u32::MAX,
        ensures
            final(self).wf(),
            final(self).size == old(self).size,
            final(self).min_step_size == old(self).min_step_size,
            final(self).max_step_size == old(self).max_step_size,
            final(self).iters == old(self).iters + 1,
            exists|d: int, step_size: int|
                0 <= d < D::Dir::spec_count() && old(self).min_step_size <= step_size <= old(self).max_step_size && #[trigger] spec_walked_by(
                    old(self),
                    final(self),
                    r,
                    D::Dir::spec_from_idx(d as nat),
                    spec_steps(step_size),
                ),
    {
        self.iters = self.iters + 1;
        let count: usize = D::Dir::count();
        proof {
            D::Dir::spec_from_idx(0).lemma_idx();
        }
        let idx: usize = sample_uniform_usize(&mut self.rng, 0, count);
        let step_size: usize = if self.min_step_size != self.max_step_size {
            sample_uniform_usize(&mut self.rng, self.min_step_size, self.max_step_size + 1)
        } else {
            self.min_step_size
        };
        let direction: D::Dir = D::Dir::from_idx(idx);
        let start: D::Pos = self.current_pos;
        let mut current: D::Pos = start;
        let mut path: Vec<D::Pos> = Vec::new();
        let mut k: usize = 1;
        while k < step_size
            invariant
                1 <= k,
                k <= step_size || step_size == 0,
                step_size == 0 ==> k == 1,
                path@.len() == k - 1,
                spec_march::<D>(&self.size, start, direction, (k - 1) as nat) == Some(current),
                forall|j: int|
                    0 <= j < path@.len() ==> spec_march::<D>(&self.size, start, direction, (j + 1) as nat)
                        == Some(#[trigger] path@[j]),
                self.current_pos == start,
                self.walked@ == old(self).walked@,
                self.size == old(self).size,
                self.min_step_size == old(self).min_step_size,
                self.max_step_size == old(self).max_step_size,
                self.iters == old(self).iters + 1,
                old(self).wf(),
                start == old(self).current_pos,
                direction == D::Dir::spec_from_idx(idx as nat),
                idx < D::Dir::spec_count(),
                old(self).min_step_size <= step_size <= old(self).max_step_size,
            decreases step_size - k,
        {
            match direction.march_step(&current, &self.size) {
                Some(position) => {
                    current = position;
                    path.push(position);
                },
                None => {
                    proof {
                        assert(spec_march::<D>(&self.size, start, direction, k as nat) is None);
                        lemma_march_stays_out::<D>(
                            &self.size,
                            start,
                            direction,
                            k as nat,
                            spec_steps(step_size as int),
                        );
                        let d = idx as int;
                        let drawn = step_size as int;
                        assert(spec_walked_by(
                            old(self),
                            self,
                            false,
                            D::Dir::spec_from_idx(d as nat),
                            spec_steps(drawn),
                        ));
                    }
                    return false;
                },
            }
            k = k + 1;
        }
        let ghost steps = spec_steps(step_size as int);
        proof {
            assert(steps == path@.len());
        }
        self.current_pos = current;
        let mut i: usize = 0;
        while i < path.len()
            invariant
                0 <= i <= path@.len(),
                self.walked@.no_duplicates(),
                forall|p: D::Pos|
                    #[trigger] self.walked@.contains(p) <==> (old(self).walked@.contains(p) || exists|j: int|
                        0 <= j < i && path@[j] == p),
                self.current_pos == current,
                self.size == old(self).size,
                self.min_step_size == old(self).min_step_size,
                self.max_step_size == old(self).max_step_size,
                self.iters == old(self).iters + 1,
            decreases path@.len() - i,
        {
            let position: D::Pos = path[i];
            if !self.has_walked(&position) {
                let ghost before = self.walked@;
                self.walked.push(position);
                proof {
                    assert forall|p: D::Pos| #[trigger]
                        self.walked@.contains(p) <==> (old(self).walked@.contains(p) || exists|j: int|
                            0 <= j < i + 1 && path@[j] == p) by {
                        if self.walked@.contains(p) {
                            let at = choose|at: int| 0 <= at < self.walked@.len() && self.walked@[at] == p;
                            if at < before.len() {
                                assert(before[at] == p);
                                assert(before.contains(p));
                            } else {
                                assert(path@[i as int] == p);
                            }
                        }
                        if before.contains(p) {
                            let at = choose|at: int| 0 <= at < before.len() && before[at] == p;
                            assert(self.walked@[at] == p);
                        }
                        if p == position {
                            assert(self.walked@[before.len() as int] == p);
                        }
                    }
                }
            }
            i = i + 1;
        }
        proof {
            assert forall|p: D::Pos|
                #[trigger] self.walked@.contains(p) <==> (old(self).walked@.contains(p) || spec_passes::<D>(
                    &old(self).size,
                    start,
                    direction,
                    steps,
                    p,
                )) by {
                if exists|j: int| 0 <= j < path@.len() && path@[j] == p {
                    let j = choose|j: int| 0 <= j < path@.len() && path@[j] == p;
                    assert(spec_march::<D>(&self.size, start, direction, (j + 1) as nat) == Some(p));
                }
                if spec_passes::<D>(&old(self).size, start, direction, steps, p) {
                    let m = choose|m: nat|
                        1 <= m <= steps && #[trigger] spec_march::<D>(
                            &old(self).size,
                            start,
                            direction,
                            m,
                        ) == Some(p);
                    assert(path@[m - 1] == p);
                }
            }
            let d = idx as int;
            let drawn = step_size as int;
            assert(spec_walked_by(
                old(self),
                self,
                true,
                D::Dir::spec_from_idx(d as nat),
                spec_steps(drawn),
            ));
        }
        true
    }

    /// The positions that the walker has walked, each once, in the order in
    /// which it came to them first.
    pub fn walked(&self) -> (r: &Vec<D::Pos>)
        ensures
            *r == self.walked,
    {
        &self.walked
    }

    /// A grid of the size of the walker that holds, at every valid position
    /// that the walker has walked, what the function makes of the position,
    /// and nothing else.
    pub fn gen_grid_map<Data: TileData, F: Fn(D::Pos) -> Data>(&self, tile_fn: F) -> (r: GridMap<D, Data>)
        requires
            self.size.spec_count() <= usize::MAX,
            forall|p: D::Pos| self.walked@.contains(p) ==> #[trigger] tile_fn.requires((p,)),
        ensures
            r.wf(),
            r.size == self.size,
            forall|p: D::Pos|
                (#[trigger] r.spec_at(p)) is Some <==> (self.walked@.contains(p) && self.size.spec_valid(
                    &p,
                )),
            forall|p: D::Pos| (#[trigger] r.spec_at(p)) is Some ==> tile_fn.ensures((p,), r.spec_at(p)->0),
    {
        let mut map: GridMap<D, Data> = GridMap::new(self.size);
        let mut i: usize = 0;
        while i < self.walked.len()
            invariant
                0 <= i <= self.walked@.len(),
                map.wf(),
                map.size == self.size,
                forall|p: D::Pos| self.walked@.contains(p) ==> #[trigger] tile_fn.requires((p,)),
                forall|o: int|
                    0 <= o < map.tiles@.len() ==> ((#[trigger] map.tiles@[o]) is Some <==> exists|j: int|
                        0 <= j < i && self.size.spec_valid(&self.walked@[j]) && self.size.spec_offset(
                            &self.walked@[j],
                        ) == o),
                forall|o: int|
                    0 <= o < map.tiles@.len() && (#[trigger] map.tiles@[o]) is Some ==> tile_fn.ensures(
                        (self.size.spec_pos_from_offset(o as nat),),
                        map.tiles@[o]->0,
                    ),
            decreases self.walked@.len() - i,
        {
            let position: D::Pos = self.walked[i];
            proof {
                assert(self.walked@.contains(position));
            }
            let ghost before = map.tiles@;
            let data: Data = tile_fn(position);
            let inserted: bool = map.insert_data(&position, data);
            proof {
                if inserted {
                    self.size.lemma_offset_in_range(&position);
                    self.size.lemma_pos_from_offset_of_offset(&position);
                }
                assert forall|o: int| 0 <= o < map.tiles@.len() implies ((#[trigger] map.tiles@[o]) is Some
                    <==> exists|j: int|
                    0 <= j < i + 1 && self.size.spec_valid(&self.walked@[j]) && self.size.spec_offset(
                        &self.walked@[j],
                    ) == o) by {
                    if before[o] is Some {
                        let j = choose|j: int|
                            0 <= j < i && self.size.spec_valid(&self.walked@[j]) && self.size.spec_offset(
                                &self.walked@[j],
                            ) == o;
                        assert(0 <= j < i + 1);
                    }
                    if exists|j: int|
                        0 <= j < i + 1 && self.size.spec_valid(&self.walked@[j]) && self.size.spec_offset(
                            &self.walked@[j],
                        ) == o {
                        let j = choose|j: int|
                            0 <= j < i + 1 && self.size.spec_valid(&self.walked@[j])
                                && self.size.spec_offset(&self.walked@[j]) == o;
                        if j < i {
                            assert(before[o] is Some);
                        }
                    }
                }
            }
            i = i + 1;
        }
        proof {
            assert forall|p: D::Pos|
                (#[trigger] map.spec_at(p)) is Some <==> (self.walked@.contains(p) && self.size.spec_valid(
                    &p,
                )) by {
                if self.size.spec_valid(&p) {
                    self.size.lemma_offset_in_range(&p);
                    self.size.lemma_pos_from_offset_of_offset(&p);
                    let o = self.size.spec_offset(&p) as int;
                    if map.tiles@[o] is Some {
                        let j = choose|j: int|
                            0 <= j < i && self.size.spec_valid(&self.walked@[j]) && self.size.spec_offset(
                                &self.walked@[j],
                            ) == o;
                        self.size.lemma_pos_from_offset_of_offset(&self.walked@[j]);
                        assert(self.walked@[j] == p);
                    }
                    if self.walked@.contains(p) {
                        let j = choose|j: int| 0 <= j < self.walked@.len() && self.walked@[j] == p;
                        assert(self.size.spec_valid(&self.walked@[j]));
                    }
                }
            }
            assert forall|p: D::Pos| (#[trigger] map.spec_at(p)) is Some implies tile_fn.ensures(
                (p,),
                map.spec_at(p)->0,
            ) by {
                self.size.lemma_offset_in_range(&p);
                self.size.lemma_pos_from_offset_of_offset(&p);
            }
        }
        map
    }

    /// Puts the walker on the position.
    pub fn set_current_pos(&mut self, current_pos: D::Pos)
        ensures
            *final(self) == (GridWalker { current_pos, ..*old(self) }),
    {
        self.current_pos = current_pos;
    }

    /// The position on which the walker stands.
    pub fn current_pos(&self) -> (r: D::Pos)
        ensures
            r == self.current_pos,
    {
        self.current_pos
    }

    /// Forgets the walks that were made: no walk is counted and no position
    /// is held as walked afterwards. The walker stays where it is.
    pub fn reset(&mut self)
        ensures
            final(self).iters == 0,
            final(self).walked@.len() == 0,
            final(self).current_pos == old(self).current_pos,
            final(self).size == old(self).size,
            final(self).min_step_size == old(self).min_step_size,
            final(self).max_step_size == old(self).max_step_size,
            final(self).rng == old(self).rng,
    {
        self.iters = 0;
        self.walked.clear();
    }
}

/// Builder of a walker.
pub struct GridWalkerBuilder<D: Dimensionality> {
    pub current_pos: Option<D::Pos>,
    pub rng: Option<StdRng>,
    pub size: Option<D::Size>,
    pub min_step_size: usize,
    pub max_step_size: usize,
}

impl<D: Dimensionality> Default for GridWalkerBuilder<D> {
    /// A builder that was given nothing yet, with step sizes of one.
    fn default() -> (r: Self)
        ensures
            r.current_pos is None,
            r.rng is None,
            r.size is None,
            r.min_step_size == 1,
            r.max_step_size == 1,
    {
        Self { current_pos: None, rng: None, size: None, min_step_size: 1, max_step_size: 1 }
    }
}

impl<D: Dimensionality> GridWalkerBuilder<D> {
    /// The fields that `build` cannot do without and that the builder was
    /// not given: the size first, then the generator of random numbers.
    pub open spec fn spec_missing(&self) -> Seq<WalkerField> {
        (if self.size is None {
            seq![WalkerField::Size]
        } else {
            Seq::<WalkerField>::empty()
        }) + (if self.rng is None {
            seq![WalkerField::Rng]
        } else {
            Seq::<WalkerField>::empty()
        })
    }

    /// Sets the position on which the walker starts.
    pub fn with_current_pos(self, current_pos: D::Pos) -> (r: Self)
        ensures
            r == (GridWalkerBuilder { current_pos: Some(current_pos), ..self }),
    {
        let mut builder: Self = self;
        builder.current_pos = Some(current_pos);
        builder
    }

    /// Sets the generator of the random numbers of the walker.
    pub fn with_rng(self, rng: StdRng) -> (r: Self)
        ensures
            r == (GridWalkerBuilder { rng: Some(rng), ..self }),
    {
        let mut builder: Self = self;
        builder.rng = Some(rng);
        builder
    }

    /// Sets the smallest step size of a walk.
    pub fn with_min_step_size(self, min_step_size: usize) -> (r: Self)
        ensures
            r == (GridWalkerBuilder { min_step_size, ..self }),
    {
        let mut builder: Self = self;
        builder.min_step_size = min_step_size;
        builder
    }

    /// Sets the largest step size of a walk.
    pub fn with_max_step_size(self, max_step_size: usize) -> (r: Self)
        ensures
            r == (GridWalkerBuilder { max_step_size, ..self }),
    {
        let mut builder: Self = self;
        builder.max_step_size = max_step_size;
        builder
    }

    /// Sets the size of the grid within which the walker walks.
    pub fn with_size(self, size: D::Size) -> (r: Self)
        ensures
            r == (GridWalkerBuilder { size: Some(size), ..self }),
    {
        let mut builder: Self = self;
        builder.size = Some(size);
        builder
    }

    /// Builds the walker. It starts on the position that the builder was
    /// given, or on the center of the grid, and holds that position as
    /// walked.
    ///
    /// Fails with the missing fields where the builder was not given a size
    /// or a generator of random numbers.
    pub fn build(self) -> (r: Result<GridWalker<D>, BuilderError>)
        requires
            self.size is Some || self.current_pos is Some,
            self.min_step_size <= self.max_step_size < usize::MAX,
        ensures
            r is Ok <==> self.size is Some && self.rng is Some,
            r is Ok ==> {
                &&& r->Ok_0.wf()
                &&& r->Ok_0.size == self.size->0
                &&& r->Ok_0.rng == self.rng->0
                &&& r->Ok_0.min_step_size == self.min_step_size
                &&& r->Ok_0.max_step_size == self.max_step_size
                &&& r->Ok_0.iters == 0
                &&& r->Ok_0.walked@ == seq![r->Ok_0.current_pos]
                &&& self.current_pos is Some ==> r->Ok_0.current_pos == self.current_pos->0
                &&& self.current_pos is None ==> forall|i: int|
                    0 <= i < self.size->0.spec_bounds().len() ==> #[trigger] r->Ok_0.current_pos.spec_coords()[i]
                        == self.size->0.spec_bounds()[i] / 2
            },
            r is Err ==> r->Err_0.missing_fields@ == self.spec_missing(),
    {
        let mut error: BuilderError = BuilderError::new();
        if self.size.is_none() {
            error.add_missing_field(WalkerField::Size);
        }
        let current_pos: D::Pos = match self.current_pos {
            Some(position) => position,
            None => self.size.unwrap().center(),
        };
        if self.rng.is_none() {
            error.add_missing_field(WalkerField::Rng);
        }
        proof {
            assert(error.missing_fields@ =~= self.spec_missing());
        }
        match error.try_throw() {
            Ok(_) => {},
            Err(thrown) => {
                return Err(thrown);
            },
        }
        let mut walked: Vec<D::Pos> = Vec::new();
        walked.push(current_pos);
        Ok(
            GridWalker {
                current_pos,
                walked,
                rng: self.rng.unwrap(),
                size: self.size.unwrap(),
                min_step_size: self.min_step_size,
                max_step_size: self.max_step_size,
                iters: 0,
            },
        )
    }
}

} // verus!
