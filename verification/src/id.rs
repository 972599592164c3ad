//! Tile data that can be told apart by the type of the tile.

use vstd::prelude::*;
use crate::tile::TileData;

verus! {

/// Tile data which knows the type of its tile.
///
/// The identifier of the type does not depend on the position of the tile:
/// tiles of one type can be placed anywhere on a map.
pub trait TypedData: TileData {
    /// Identifier of the type of the tile.
    spec fn spec_tile_type_id(&self) -> u64;

    /// Identifier of the type of the tile.
    fn tile_type_id(&self) -> (r: u64)
        ensures
            r == self.spec_tile_type_id(),
    ;
}

/// Typed tile data which can be created from the identifier of its type
/// alone.
pub trait IdDefault: TypedData + Sized {
    /// Creates the data of a tile of the given type.
    fn tile_type_default(tile_type_id: u64) -> (r: Self)
        ensures
            r.spec_tile_type_id() == tile_type_id,
    ;
}

/// Tile data which holds the identifier of the type of its tile and nothing
/// else.
#[derive(Debug, Clone, Copy, PartialEq, Eq, Structural)]
pub struct BasicTypedData(pub u64);

impl TileData for BasicTypedData {

}

impl TypedData for BasicTypedData {
    open spec fn spec_tile_type_id(&self) -> u64 {
        self.0
    }

    fn tile_type_id(&self) -> (r: u64) {
        self.0
    }
}

impl IdDefault for BasicTypedData {
    fn tile_type_default(tile_type_id: u64) -> (r: Self) {
        BasicTypedData(tile_type_id)
    }
}

/// Index of the first of the identifiers, which increase strictly, that is
/// not below `id`.
pub fn lower_bound(ids: &Vec<u64>, id: u64) -> (r: usize)
    requires
        spec_strictly_increasing(ids@),
    ensures
        r <= ids@.len(),
        forall|k: int| 0 <= k < r ==> ids@[k] < id,
        forall|k: int| r <= k < ids@.len() ==> ids@[k] >= id,
{
    let mut low: usize = 0;
    let mut high: usize = ids.len();
    while low < high
        invariant
            spec_strictly_increasing(ids@),
            0 <= low <= high <= ids@.len(),
            forall|k: int| 0 <= k < low ==> ids@[k] < id,
            forall|k: int| high <= k < ids@.len() ==> ids@[k] >= id,
        decreases high - low,
    {
        let mid: usize = low + (high - low) / 2;
        if ids[mid] < id {
            low = mid + 1;
        } else {
            high = mid;
        }
    }
    low
}

/// Whether the identifiers, which increase strictly, hold `id`.
pub fn contains_sorted(ids: &Vec<u64>, id: u64) -> (r: bool)
    requires
        spec_strictly_increasing(ids@),
    ensures
        r == ids@.contains(id),
{
    let at: usize = lower_bound(ids, id);
    if at < ids.len() && ids[at] == id {
        true
    } else {
        proof {
            if ids@.contains(id) {
                let k = choose|k: int| 0 <= k < ids@.len() && ids@[k] == id;
                assert(false);
            }
        }
        false
    }
}

/// Puts `id` among the identifiers, which increase strictly, at its place in
/// their order, unless they hold it already. Returns whether it was put.
pub fn insert_sorted(ids: &mut Vec<u64>, id: u64) -> (r: bool)
    requires
        spec_strictly_increasing(old(ids)@),
    ensures
        spec_strictly_increasing(final(ids)@),
        r == !old(ids)@.contains(id),
        forall|other: u64| final(ids)@.contains(other) <==> (other == id || old(ids)@.contains(other)),
        final(ids)@.len() == old(ids)@.len() + if r {
            1int
        } else {
            0int
        },
{
    let at: usize = lower_bound(ids, id);
    if at < ids.len() && ids[at] == id {
        return false;
    }
    ids.insert(at, id);
    proof {
        let old_ids = old(ids)@;
        let new_ids = ids@;
        assert(new_ids == old_ids.insert(at as int, id));
        assert forall|i: int, j: int| 0 <= i < j < new_ids.len() implies new_ids[i] < new_ids[j] by {
            if j < at {
                assert(new_ids[i] == old_ids[i] && new_ids[j] == old_ids[j]);
            } else if j == at {
                assert(new_ids[i] == old_ids[i]);
            } else if i < at {
                assert(new_ids[i] == old_ids[i] && new_ids[j] == old_ids[j - 1]);
            } else if i == at {
                assert(new_ids[j] == old_ids[j - 1]);
            } else {
                assert(new_ids[i] == old_ids[i - 1] && new_ids[j] == old_ids[j - 1]);
            }
        }
        if old_ids.contains(id) {
            let k = choose|k: int| 0 <= k < old_ids.len() && old_ids[k] == id;
            assert(false);
        }
        assert forall|other: u64| new_ids.contains(other) <==> (other == id || old_ids.contains(
            other,
        )) by {
            if other == id {
                assert(new_ids[at as int] == id);
            }
            if old_ids.contains(other) {
                let k = choose|k: int| 0 <= k < old_ids.len() && old_ids[k] == other;
                if k < at {
                    assert(new_ids[k] == other);
                } else {
                    assert(new_ids[k + 1] == other);
                }
            }
            if new_ids.contains(other) && other != id {
                let k = choose|k: int| 0 <= k < new_ids.len() && new_ids[k] == other;
                if k < at {
                    assert(old_ids[k] == other);
                } else {
                    assert(old_ids[k - 1] == other);
                }
            }
        }
    }
    true
}

/// Map from identifiers to values, kept in the order of the identifiers.
///
/// The identifiers are held in a vector in strictly increasing order, the
/// value of each identifier at the same index in a second vector.
pub struct IdMap<V> {
    pub ids: Vec<u64>,
    pub values: Vec<V>,
}

/// Whether the identifiers are in strictly increasing order.
pub open spec fn spec_strictly_increasing(ids: Seq<u64>) -> bool {
    forall|i: int, j: int| 0 <= i < j < ids.len() ==> ids[i] < ids[j]
}

impl<V> IdMap<V> {
    /// Both vectors have one length, and the identifiers increase strictly.
    pub open spec fn wf(&self) -> bool {
        &&& self.ids@.len() == self.values@.len()
        &&& spec_strictly_increasing(self.ids@)
    }

    /// Whether the map holds a value for the identifier.
    pub open spec fn spec_contains(&self, id: u64) -> bool {
        self.ids@.contains(id)
    }

    /// Index at which the map holds the identifier.
    pub open spec fn spec_index_of(&self, id: u64) -> int {
        self.ids@.index_of(id)
    }

    /// The value that the map holds for the identifier.
    pub open spec fn spec_get(&self, id: u64) -> V {
        self.values@[self.spec_index_of(id)]
    }

    /// In a well-formed map every identifier occurs at one index only.
    pub proof fn lemma_index_unique(&self, i: int)
        requires
            self.wf(),
            0 <= i < self.ids@.len(),
        ensures
            self.spec_contains(self.ids@[i]),
            self.spec_index_of(self.ids@[i]) == i,
    {
        let id = self.ids@[i];
        let j = self.ids@.index_of(id);
        assert(self.ids@.contains(id));
        if j < i {
            assert(self.ids@[j] < self.ids@[i]);
        }
        if i < j {
            assert(self.ids@[i] < self.ids@[j]);
        }
    }

    /// Creates an empty map.
    pub fn new() -> (r: Self)
        ensures
            r.wf(),
            r.ids@.len() == 0,
    {
        Self { ids: Vec::new(), values: Vec::new() }
    }

    /// Number of identifiers of the map.
    pub fn len(&self) -> (r: usize)
        requires
            self.wf(),
        ensures
            r == self.ids@.len(),
    {
        self.ids.len()
    }

    /// Index at which the map holds the identifier, if it holds it.
    pub fn find(&self, id: u64) -> (r: Option<usize>)
        requires
            self.wf(),
        ensures
            r is Some <==> self.spec_contains(id),
            r is Some ==> r->0 < self.ids@.len() && self.ids@[r->0 as int] == id && r->0
                == self.spec_index_of(id),
    {
        let at: usize = lower_bound(&self.ids, id);
        if at < self.ids.len() && self.ids[at] == id {
            proof {
                self.lemma_index_unique(at as int);
            }
            Some(at)
        } else {
            proof {
                if self.ids@.contains(id) {
                    let k = choose|k: int| 0 <= k < self.ids@.len() && self.ids@[k] == id;
                    assert(false);
                }
            }
            None
        }
    }

    /// The value that the map holds for the identifier, if it holds one.
    pub fn get(&self, id: u64) -> (r: Option<&V>)
        requires
            self.wf(),
        ensures
            r is Some <==> self.spec_contains(id),
            r is Some ==> *r->0 == self.spec_get(id),
    {
        match self.find(id) {
            Some(at) => Some(&self.values[at]),
            None => None,
        }
    }

    /// Binds the value to the identifier, in place of the value that the map
    /// held for it, if it held one. Every other identifier keeps its value.
    ///
    /// Returns the index at which the map now holds the identifier.
    pub fn insert(&mut self, id: u64, value: V) -> (at: usize)
        requires
            old(self).wf(),
        ensures
            final(self).wf(),
            at < final(self).ids@.len(),
            final(self).ids@[at as int] == id,
            old(self).spec_contains(id) ==> final(self).ids@ == old(self).ids@ && final(self).values@
                == old(self).values@.update(at as int, value),
            !old(self).spec_contains(id) ==> final(self).ids@ == old(self).ids@.insert(at as int, id)
                && final(self).values@ == old(self).values@.insert(at as int, value),
            final(self).spec_contains(id),
            final(self).spec_get(id) == value,
            forall|other: u64|
                other != id ==> (final(self).spec_contains(other) == old(self).spec_contains(other)),
            forall|other: u64|
                other != id && old(self).spec_contains(other) ==> final(self).spec_get(other) == old(self).spec_get(other),
            final(self).ids@.len() == old(self).ids@.len() + if old(self).spec_contains(id) {
                0int
            } else {
                1int
            },
    {
        let at: usize = lower_bound(&self.ids, id);
        if at < self.ids.len() && self.ids[at] == id {
            self.values[at] = value;
            proof {
                self.lemma_index_unique(at as int);
                old(self).lemma_index_unique(at as int);
                assert forall|other: u64|
                    other != id && old(self).spec_contains(other) implies final(self).spec_get(other)
                    == old(self).spec_get(other) by {
                    let k = old(self).ids@.index_of(other);
                    assert(k != at);
                }
            }
        } else {
            self.ids.insert(at, id);
            self.values.insert(at, value);
            proof {
                let old_ids = old(self).ids@;
                let new_ids = self.ids@;
                assert(new_ids == old_ids.insert(at as int, id));
                assert forall|i: int, j: int| 0 <= i < j < new_ids.len() implies new_ids[i]
                    < new_ids[j] by {
                    if j < at {
                        assert(new_ids[i] == old_ids[i] && new_ids[j] == old_ids[j]);
                    } else if j == at {
                        assert(new_ids[i] == old_ids[i]);
                    } else if i < at {
                        assert(new_ids[i] == old_ids[i] && new_ids[j] == old_ids[j - 1]);
                    } else if i == at {
                        assert(new_ids[j] == old_ids[j - 1]);
                    } else {
                        assert(new_ids[i] == old_ids[i - 1] && new_ids[j] == old_ids[j - 1]);
                    }
                }
                assert(new_ids[at as int] == id);
                self.lemma_index_unique(at as int);
                if old_ids.contains(id) {
                    let k = choose|k: int| 0 <= k < old_ids.len() && old_ids[k] == id;
                    assert(false);
                }
                assert forall|other: u64| other != id implies (final(self).spec_contains(other)
                    == old(self).spec_contains(other)) by {
                    if old_ids.contains(other) {
                        let k = choose|k: int| 0 <= k < old_ids.len() && old_ids[k] == other;
                        if k < at {
                            assert(new_ids[k] == other);
                        } else {
                            assert(new_ids[k + 1] == other);
                        }
                    }
                    if new_ids.contains(other) {
                        let k = choose|k: int| 0 <= k < new_ids.len() && new_ids[k] == other;
                        if k < at {
                            assert(old_ids[k] == other);
                        } else {
                            assert(old_ids[k - 1] == other);
                        }
                    }
                }
                assert forall|other: u64|
                    other != id && old(self).spec_contains(other) implies final(self).spec_get(other)
                    == old(self).spec_get(other) by {
                    let k = old_ids.index_of(other);
                    old(self).lemma_index_unique(k);
                    if k < at {
                        assert(new_ids[k] == other);
                        self.lemma_index_unique(k);
                    } else {
                        assert(new_ids[k + 1] == other);
                        self.lemma_index_unique(k + 1);
                    }
                }
            }
        }
        at
    }
}

} // verus!
