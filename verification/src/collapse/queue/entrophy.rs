//! Queue that hands out the cell of the smallest entropy first.

use vstd::prelude::*;
use rand::rngs::StdRng;
use crate::collapse::table::PerOptionData;
use crate::collapse::tile::CollapsibleTile;
use crate::dimension::Dimensionality;
use crate::map::GridMap;
use crate::position::GridPosition;
use crate::position::lemma_lex_total;
use crate::position::lemma_lex_transitive;
use crate::position::lex_less;
use crate::position::spec_lex_less;
use crate::size::GridSize;

verus! {

/// Whether the slot at `at` is the one to leave next: it holds a key, no
/// slot holds a smaller key, and of the slots that hold the same key, its
/// position is the first in the lexicographic order of the coordinates.
pub open spec fn spec_is_next<D: Dimensionality>(
    size: &D::Size,
    keys: Seq<Option<u64>>,
    at: int,
) -> bool {
    &&& 0 <= at < keys.len()
    &&& keys[at] is Some
    &&& forall|o: int|
        0 <= o < keys.len() && keys[o] is Some ==> {
            ||| keys[at]->0 < (#[trigger] keys[o])->0
            ||| (keys[at]->0 == keys[o]->0 && (at == o || spec_lex_less(
                size.spec_pos_from_offset(at as nat).spec_coords(),
                size.spec_pos_from_offset(o as nat).spec_coords(),
            )))
        }
}

/// Keys leave in ascending order: of two slots that leave one after the
/// other, with no key changed in between, the second holds no smaller key
/// than the first, and where it holds the same key, its position comes
/// later in the lexicographic order of the coordinates.
pub proof fn lemma_keys_leave_ascending<D: Dimensionality>(
    size: &D::Size,
    keys: Seq<Option<u64>>,
    first: int,
    second: int,
)
    requires
        spec_is_next::<D>(size, keys, first),
        spec_is_next::<D>(size, keys.update(first, None), second),
    ensures
        first != second,
        keys[second] is Some,
        keys[first]->0 < keys[second]->0 || (keys[first]->0 == keys[second]->0 && spec_lex_less(
            size.spec_pos_from_offset(first as nat).spec_coords(),
            size.spec_pos_from_offset(second as nat).spec_coords(),
        )),
{
    assert(keys.update(first, None)[second] is Some);
    assert(keys[second] is Some);
}

/// Number of the first `n` slots that hold a key.
pub open spec fn spec_count_keys(keys: Seq<Option<u64>>, n: int) -> int
    decreases n,
{
    if n <= 0 {
        0
    } else {
        spec_count_keys(keys, n - 1) + if keys[n - 1] is Some {
            1int
        } else {
            0int
        }
    }
}

/// Changing one slot changes the number of keys by what the slot gains or
/// loses.
pub proof fn lemma_count_keys_update(keys: Seq<Option<u64>>, at: int, value: Option<u64>, n: int)
    requires
        0 <= at < keys.len(),
        0 <= n <= keys.len(),
    ensures
        0 <= spec_count_keys(keys, n) <= n,
        spec_count_keys(keys.update(at, value), n) == spec_count_keys(keys, n) + if at < n {
            (if value is Some {
                1int
            } else {
                0int
            }) - (if keys[at] is Some {
                1int
            } else {
                0int
            })
        } else {
            0int
        },
    decreases n,
{
    if n > 0 {
        lemma_count_keys_update(keys, at, value, n - 1);
    }
}

/// Where no slot holds a key the number of keys is zero, and the other way
/// round.
pub proof fn lemma_count_keys_zero(keys: Seq<Option<u64>>, n: int)
    requires
        0 <= n <= keys.len(),
    ensures
        0 <= spec_count_keys(keys, n),
        spec_count_keys(keys, n) == 0 <==> forall|k: int| 0 <= k < n ==> keys[k] is None,
    decreases n,
{
    if n > 0 {
        lemma_count_keys_zero(keys, n - 1);
    }
}

/// Queue of the positions of a grid, each with the entropy of its cell as
/// key.
///
/// The queue hands out the position of the smallest key first; among
/// positions of one key, the first in the lexicographic order of the
/// coordinates. The keys are held
/// in a buffer with one slot for each position of the grid, at the offset of
/// the position, so that the key of a position is replaced in place.
pub struct EntrophyQueue<D: Dimensionality> {
    pub size: D::Size,
    pub by_pos: Vec<Option<u64>>,
    pub length: usize,
}

impl<D: Dimensionality> EntrophyQueue<D> {
    /// The buffer has one slot for each position, and the length of the
    /// queue is the number of slots that hold a key.
    pub open spec fn wf(&self) -> bool {
        &&& self.by_pos@.len() == self.size.spec_count()
        &&& self.length == spec_count_keys(self.by_pos@, self.by_pos@.len() as int)
    }

    /// Whether the queue holds the position.
    pub open spec fn spec_contains(&self, pos: D::Pos) -> bool {
        self.size.spec_valid(&pos) && self.by_pos@[self.size.spec_offset(&pos) as int] is Some
    }

    /// Creates an empty queue for the positions of a grid of the given size.
    pub fn new(size: D::Size) -> (r: Self)
        requires
            size.spec_count() <= usize::MAX,
        ensures
            r.wf(),
            r.size == size,
            r.length == 0,
            forall|o: int| 0 <= o < r.by_pos@.len() ==> r.by_pos@[o] is None,
    {
        let count: usize = size.max_tile_count();
        let mut by_pos: Vec<Option<u64>> = Vec::new();
        let mut i: usize = 0;
        while i < count
            invariant
                0 <= i <= count,
                by_pos@.len() == i,
                forall|o: int| 0 <= o < i ==> by_pos@[o] is None,
            decreases count - i,
        {
            by_pos.push(None);
            i = i + 1;
        }
        proof {
            lemma_count_keys_zero(by_pos@, count as int);
        }
        Self { size, by_pos, length: 0 }
    }

    /// Number of positions in the queue.
    pub fn len(&self) -> (r: usize)
        ensures
            r == self.length,
    {
        self.length
    }

    /// Whether the queue holds no position.
    pub fn is_empty(&self) -> (r: bool)
        requires
            self.wf(),
        ensures
            r == (self.length == 0),
            r <==> forall|o: int| 0 <= o < self.by_pos@.len() ==> self.by_pos@[o] is None,
    {
        proof {
            lemma_count_keys_zero(self.by_pos@, self.by_pos@.len() as int);
        }
        self.length == 0
    }

    /// Puts the position into the queue with the given key, in place of the
    /// key that it had if the queue held it already.
    pub fn update_key(&mut self, pos: &D::Pos, key: u64)
        requires
            old(self).wf(),
            old(self).size.spec_valid(pos),
        ensures
            final(self).wf(),
            final(self).size == old(self).size,
            final(self).by_pos@ == old(self).by_pos@.update(
                old(self).size.spec_offset(pos) as int,
                Some(key),
            ),
            final(self).length == old(self).length + if old(self).spec_contains(*pos) {
                0int
            } else {
                1int
            },
    {
        proof {
            self.size.lemma_offset_in_range(pos);
        }
        let n: usize = self.by_pos.len();
        let off: usize = self.size.offset(pos);
        proof {
            lemma_count_keys_update(self.by_pos@, off as int, Some(key), n as int);
            lemma_count_keys_update(
                self.by_pos@.update(off as int, Some(key)),
                off as int,
                Some(key),
                n as int,
            );
        }
        if self.by_pos[off].is_none() {
            self.length = self.length + 1;
        }
        self.by_pos[off] = Some(key);
    }

    /// Puts the position of the cell into the queue with the entropy of
    /// the cell as key, in place of the key that it had if the queue held it
    /// already.
    pub fn update_queue(&mut self, pos: &D::Pos, cell: &CollapsibleTile<D>)
        requires
            old(self).wf(),
            old(self).size.spec_valid(pos),
        ensures
            final(self).wf(),
            final(self).size == old(self).size,
            final(self).by_pos@ == old(self).by_pos@.update(
                old(self).size.spec_offset(pos) as int,
                Some(cell.spec_entrophy() as u64),
            ),
            final(self).length == old(self).length + if old(self).spec_contains(*pos) {
                0int
            } else {
                1int
            },
    {
        self.update_key(pos, cell.calc_entrophy())
    }

    /// Puts the positions of all the cells into the queue, each with the
    /// entropy of its cell as key.
    pub fn initialize_queue(&mut self, tiles: &[(D::Pos, CollapsibleTile<D>)])
        requires
            old(self).wf(),
            forall|k: int| 0 <= k < tiles@.len() ==> old(self).size.spec_valid(&(#[trigger] tiles@[k]).0),
        ensures
            final(self).wf(),
            final(self).size == old(self).size,
            forall|k: int| 0 <= k < tiles@.len() ==> final(self).spec_contains((#[trigger] tiles@[k]).0),
            forall|o: int|
                0 <= o < old(self).by_pos@.len() ==> (#[trigger] final(self).by_pos@[o] is Some <==> (
                old(self).by_pos@[o] is Some || exists|k: int|
                    0 <= k < tiles@.len() && old(self).size.spec_offset(&(#[trigger] tiles@[k]).0) == o)),
    {
        let mut i: usize = 0;
        while i < tiles.len()
            invariant
                self.wf(),
                self.size == old(self).size,
                0 <= i <= tiles@.len(),
                forall|k: int| 0 <= k < tiles@.len() ==> self.size.spec_valid(&(#[trigger] tiles@[k]).0),
                forall|k: int| 0 <= k < i ==> self.spec_contains((#[trigger] tiles@[k]).0),
                forall|o: int|
                    0 <= o < self.by_pos@.len() ==> (#[trigger] self.by_pos@[o] is Some <==> (old(self).by_pos@[o] is Some || exists|k: int|
                        0 <= k < i && self.size.spec_offset(&(#[trigger] tiles@[k]).0) == o)),
            decreases tiles@.len() - i,
        {
            let ghost before = self.by_pos@;
            proof {
                self.size.lemma_offset_in_range(&tiles@[i as int].0);
            }
            self.update_queue(&tiles[i].0, &tiles[i].1);
            proof {
                let at = self.size.spec_offset(&tiles@[i as int].0) as int;
                assert forall|o: int| 0 <= o < self.by_pos@.len() implies (
                #[trigger] self.by_pos@[o] is Some <==> (old(self).by_pos@[o] is Some || exists|k: int|
                    0 <= k < i + 1 && self.size.spec_offset(&(#[trigger] tiles@[k]).0) == o)) by {
                    if o == at {
                        assert(self.size.spec_offset(&tiles@[i as int].0) == o);
                    } else {
                        assert(self.by_pos@[o] == before[o]);
                        if exists|k: int|
                            0 <= k < i + 1 && self.size.spec_offset(&(#[trigger] tiles@[k]).0) == o {
                            let k = choose|k: int|
                                0 <= k < i + 1 && self.size.spec_offset(&(#[trigger] tiles@[k]).0)
                                    == o;
                            assert(k < i);
                        }
                    }
                }
                assert forall|k: int| 0 <= k < i + 1 implies self.spec_contains(
                    (#[trigger] tiles@[k]).0,
                ) by {
                    self.size.lemma_offset_in_range(&tiles@[k].0);
                    if k < i {
                        let o = self.size.spec_offset(&tiles@[k].0) as int;
                        assert(before[o] is Some);
                    }
                }
            }
            i = i + 1;
        }
    }

    /// Takes the position of the smallest key out of the queue; among
    /// positions of one key, the first in the lexicographic order of the
    /// coordinates.
    pub fn get_next_position(&mut self) -> (r: Option<D::Pos>)
        requires
            old(self).wf(),
        ensures
            final(self).wf(),
            final(self).size == old(self).size,
            r is None <==> old(self).length == 0,
            r is None ==> final(self).by_pos@ == old(self).by_pos@,
            r is Some ==> {
                let at = old(self).size.spec_offset(&r->0) as int;
                &&& old(self).spec_contains(r->0)
                &&& final(self).by_pos@ == old(self).by_pos@.update(at, None)
                &&& final(self).length == old(self).length - 1
                &&& spec_is_next::<D>(&old(self).size, old(self).by_pos@, at)
            },
    {
        let n: usize = self.by_pos.len();
        let mut best: Option<D::Pos> = None;
        let mut best_off: usize = 0;
        let mut best_key: u64 = 0;
        let mut i: usize = 0;
        while i < n
            invariant
                self.wf(),
                *self == *old(self),
                0 <= i <= n,
                n == self.by_pos@.len(),
                best is None ==> forall|o: int| 0 <= o < i ==> self.by_pos@[o] is None,
                best is Some ==> {
                    &&& best_off < i
                    &&& self.by_pos@[best_off as int] == Some(best_key)
                    &&& best->0 == self.size.spec_pos_from_offset(best_off as nat)
                    &&& forall|o: int|
                        0 <= o < i && self.by_pos@[o] is Some ==> {
                            ||| best_key < (#[trigger] self.by_pos@[o])->0
                            ||| (best_key == self.by_pos@[o]->0 && (best_off == o || spec_lex_less(
                                self.size.spec_pos_from_offset(best_off as nat).spec_coords(),
                                self.size.spec_pos_from_offset(o as nat).spec_coords(),
                            )))
                        }
                },
            decreases n - i,
        {
            match self.by_pos[i] {
                Some(key) => {
                    let position: D::Pos = self.size.pos_from_offset(i);
                    let takes_over: bool = match best {
                        None => true,
                        Some(first) => key < best_key || (key == best_key && lex_less(
                            &position,
                            &first,
                        )),
                    };
                    proof {
                        if best is Some {
                            let first = best->0;
                            first.lemma_coords_len();
                            position.lemma_coords_len();
                            self.size.lemma_offset_of_pos_from_offset(i as nat);
                            self.size.lemma_offset_of_pos_from_offset(best_off as nat);
                            if takes_over {
                                assert forall|o: int|
                                    0 <= o < i + 1 && self.by_pos@[o] is Some implies {
                                    ||| key < (#[trigger] self.by_pos@[o])->0
                                    ||| (key == self.by_pos@[o]->0 && (i == o || spec_lex_less(
                                        position.spec_coords(),
                                        self.size.spec_pos_from_offset(o as nat).spec_coords(),
                                    )))
                                } by {
                                    if o < i && key == self.by_pos@[o]->0 && o != best_off {
                                        let other = self.size.spec_pos_from_offset(o as nat);
                                        other.lemma_coords_len();
                                        lemma_lex_transitive(
                                            position.spec_coords(),
                                            first.spec_coords(),
                                            other.spec_coords(),
                                        );
                                    }
                                }
                            } else if key == best_key {
                                lemma_lex_total(
                                    first.spec_coords(),
                                    position.spec_coords(),
                                    first.spec_coords().len() as int,
                                );
                                if !spec_lex_less(first.spec_coords(), position.spec_coords()) {
                                    assert(first.spec_coords() =~= position.spec_coords());
                                    D::Pos::lemma_coords_injective(first, position);
                                }
                            }
                        }
                    }
                    if takes_over {
                        best = Some(position);
                        best_off = i;
                        best_key = key;
                    }
                },
                None => {},
            }
            i = i + 1;
        }
        let found: bool = best.is_some();
        if found {
            proof {
                lemma_count_keys_update(self.by_pos@, best_off as int, None, n as int);
                lemma_count_keys_update(
                    self.by_pos@.update(best_off as int, None),
                    best_off as int,
                    None,
                    n as int,
                );
                self.size.lemma_offset_of_pos_from_offset(best_off as nat);
            }
            self.by_pos[best_off] = None;
            self.length = self.length - 1;
            Some(self.size.pos_from_offset(best_off))
        } else {
            proof {
                lemma_count_keys_zero(self.by_pos@, n as int);
            }
            None
        }
    }
}

} // verus!
