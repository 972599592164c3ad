//! Analyzer that reads rules off the borders of tiles.

use vstd::prelude::*;
use crate::collapse::analyzer::AdjacencyAnalyzer;
use crate::collapse::analyzer::record_tile;
use crate::collapse::analyzer::spec_observed;
use crate::collapse::analyzer::spec_observed_at;
use crate::collapse::analyzer::spec_observed_in;
use crate::collapse::rules::AdjacencyRules;
use crate::dimension::Dimensionality;
use crate::direction::Direction;
use crate::id::IdMap;
use crate::id::TypedData;
use crate::map::GridMap;
use crate::position::GridPosition;
use crate::size::GridSize;

verus! {

/// Whether two sides have the same border under an assignment of borders to
/// sides.
pub open spec fn spec_same_border(
    borders: spec_fn((u64, int)) -> Option<u64>,
    a: (u64, int),
    b: (u64, int),
) -> bool {
    borders(a) is Some && borders(a) == borders(b)
}

/// Whether a side is one of two given sides or shares a border with one of
/// them.
pub open spec fn spec_beside(
    borders: spec_fn((u64, int)) -> Option<u64>,
    side: (u64, int),
    t: (u64, int),
    u: (u64, int),
) -> bool {
    side == t || side == u || spec_same_border(borders, side, t) || spec_same_border(
        borders,
        side,
        u,
    )
}

/// Whether the assignment `after` is the assignment `before` with the
/// borders of the sides `t` and `u` made one: by a border that no side had,
/// where neither had a border; by the border of the one, where the other had
/// none; by one of their two borders, which every side of the other gets,
/// where both had one.
pub open spec fn spec_borders_merged(
    before: spec_fn((u64, int)) -> Option<u64>,
    after: spec_fn((u64, int)) -> Option<u64>,
    t: (u64, int),
    u: (u64, int),
    fresh: u64,
) -> bool {
    if before(t) is None && before(u) is None {
        &&& forall|s: (u64, int)| #[trigger] before(s) != Some(fresh)
        &&& forall|s: (u64, int)|
            #[trigger] after(s) == if s == t || s == u {
                Some(fresh)
            } else {
                before(s)
            }
    } else if before(t) is None {
        forall|s: (u64, int)|
            #[trigger] after(s) == if s == t {
                before(u)
            } else {
                before(s)
            }
    } else if before(u) is None {
        forall|s: (u64, int)|
            #[trigger] after(s) == if s == u {
                before(t)
            } else {
                before(s)
            }
    } else {
        ||| forall|s: (u64, int)|
            #[trigger] after(s) == if before(s) == before(t) {
                before(u)
            } else {
                before(s)
            }
        ||| forall|s: (u64, int)|
            #[trigger] after(s) == if before(s) == before(u) {
                before(t)
            } else {
                before(s)
            }
    }
}

/// After the borders of two sides have been made one, two sides share a
/// border exactly if they shared one before, or each of them is one of the
/// two sides or shared a border with one of them.
pub proof fn lemma_borders_merged(
    before: spec_fn((u64, int)) -> Option<u64>,
    after: spec_fn((u64, int)) -> Option<u64>,
    t: (u64, int),
    u: (u64, int),
    fresh: u64,
)
    requires
        spec_borders_merged(before, after, t, u, fresh),
        t != u,
    ensures
        forall|a: (u64, int), b: (u64, int)|
            #[trigger] spec_same_border(after, a, b) <==> (spec_same_border(before, a, b) || (
            spec_beside(before, a, t, u) && spec_beside(before, b, t, u))),
{
    assert forall|a: (u64, int), b: (u64, int)|
        #[trigger] spec_same_border(after, a, b) <==> (spec_same_border(before, a, b) || (
        spec_beside(before, a, t, u) && spec_beside(before, b, t, u))) by {
        let fa = after(a);
        let fb = after(b);
        let ft = after(t);
        let fu = after(u);
        let ba = before(a);
        let bb = before(b);
        let bt = before(t);
        let bu = before(u);
    }
}

/// Whether the map shows the side `x` touching the side `y`: a tile of the
/// type of `x` with a tile of the type of `y` beside it in the direction of
/// `x`, and the direction of `y` is the opposite one.
pub open spec fn spec_edge<D: Dimensionality, Data: TypedData>(
    map: &GridMap<D, Data>,
    x: (u64, int),
    y: (u64, int),
) -> bool {
    &&& 0 <= x.1 < D::Dir::spec_count()
    &&& y.1 == D::Dir::spec_from_idx(x.1 as nat).spec_opposite().spec_idx() as int
    &&& spec_observed(map, x.0, x.1, y.0)
}

/// Analyzer that takes two sides of tiles for the same border wherever it
/// has seen them touch, or touch a common third, and lets every tile stand
/// beside every tile with which it shares a border.
///
/// A side is a tile type together with a direction. Where a sample map
/// shows a tile beside another, the side of the first toward the second and
/// the side of the second toward the first are given the same border.
/// Borders only ever merge. The rules that follow are those of the exact
/// neighbours of the samples, and more.
pub struct AdjacencyBorderAnalyzer<D: Dimensionality> {
    pub tiles: Vec<u64>,
    pub adjacency_rules: AdjacencyRules<D>,
    pub inner: IdMap<Vec<Option<u64>>>,
    pub next_border: u64,
}

impl<D: Dimensionality> AdjacencyBorderAnalyzer<D> {
    /// The tile types are held once each; the rules are well-formed; every
    /// tile type with borders has one slot for the border of each of its
    /// sides; and every border has a number below the next number to give.
    pub open spec fn wf(&self) -> bool {
        &&& self.tiles@.no_duplicates()
        &&& self.adjacency_rules.wf()
        &&& self.inner.wf()
        &&& forall|i: int|
            0 <= i < self.inner.values@.len() ==> (#[trigger] self.inner.values@[i])@.len()
                == D::Dir::spec_count()
        &&& forall|i: int, d: int|
            0 <= i < self.inner.values@.len() && 0 <= d < D::Dir::spec_count() ==> match (
            #[trigger] self.inner.values@[i]@[d]) {
                Some(border) => border < self.next_border,
                None => true,
            }
    }

    /// The border of the side of the tile type in the direction with the
    /// given index, if the side has one.
    pub open spec fn spec_border(&self, tile_id: u64, direction: int) -> Option<u64> {
        if self.inner.spec_contains(tile_id) && 0 <= direction < D::Dir::spec_count() {
            self.inner.spec_get(tile_id)@[direction]
        } else {
            None
        }
    }

    /// Whether the two sides have the same border.
    pub open spec fn spec_joined(&self, a: u64, da: int, b: u64, db: int) -> bool {
        self.spec_border(a, da) is Some && self.spec_border(a, da) == self.spec_border(b, db)
    }

    /// Creates an analyzer that has seen nothing.
    pub fn new() -> (r: Self)
        ensures
            r.wf(),
            r.next_border == 0,
            forall|a: u64, d: int| r.spec_border(a, d) is None,
            forall|a: u64, d: int, b: u64| !r.adjacency_rules.spec_allowed(a, d, b),
    {
        Self {
            tiles: Vec::new(),
            adjacency_rules: AdjacencyRules::new(),
            inner: IdMap::new(),
            next_border: 0,
        }
    }

    /// The border of the side of the tile type in the direction, if the
    /// side has one.
    pub fn get_border_id(&self, tile_id: u64, direction: D::Dir) -> (r: Option<u64>)
        requires
            self.wf(),
        ensures
            r == self.spec_border(tile_id, direction.spec_idx() as int),
            r is Some ==> r->0 < self.next_border,
    {
        proof {
            direction.lemma_idx();
        }
        match self.inner.find(tile_id) {
            Some(at) => {
                proof {
                    assert(self.inner.values@[at as int]@.len() == D::Dir::spec_count());
                }
                self.inner.values[at][direction.as_idx()]
            },
            None => None,
        }
    }

    /// Makes room for the borders of the tile type, if there is none yet.
    /// No side gets or loses a border by this.
    pub fn ensure_adjacencies_present_for_tile(&mut self, tile_id: u64)
        requires
            old(self).wf(),
        ensures
            final(self).wf(),
            final(self).inner.spec_contains(tile_id),
            final(self).next_border == old(self).next_border,
            final(self).tiles == old(self).tiles,
            final(self).adjacency_rules == old(self).adjacency_rules,
            forall|a: u64, d: int| #[trigger] final(self).spec_border(a, d) == old(self).spec_border(a, d),
            forall|a: u64| old(self).inner.spec_contains(a) ==> final(self).inner.spec_contains(a),
    {
        if self.inner.find(tile_id).is_some() {
            return ;
        }
        let n: usize = D::Dir::count();
        let mut row: Vec<Option<u64>> = Vec::new();
        let mut d: usize = 0;
        while d < n
            invariant
                0 <= d <= n,
                row@.len() == d,
                forall|k: int| 0 <= k < d ==> row@[k] is None,
            decreases n - d,
        {
            row.push(None);
            d = d + 1;
        }
        let ghost before = self.inner;
        let at: usize = self.inner.insert(tile_id, row);
        proof {
            assert forall|i: int| 0 <= i < self.inner.values@.len() implies (
            #[trigger] self.inner.values@[i])@.len() == D::Dir::spec_count() by {
                if i < at {
                    assert(self.inner.values@[i] == before.values@[i]);
                } else if i > at {
                    assert(self.inner.values@[i] == before.values@[i - 1]);
                }
            }
            assert forall|i: int, e: int|
                0 <= i < self.inner.values@.len() && 0 <= e < D::Dir::spec_count() implies match (
            #[trigger] self.inner.values@[i]@[e]) {
                Some(border) => border < self.next_border,
                None => true,
            } by {
                if i < at {
                    assert(self.inner.values@[i] == before.values@[i]);
                    assert(before.values@[i]@[e] is Some ==> before.values@[i]@[e]->0
                        < self.next_border);
                } else if i > at {
                    assert(self.inner.values@[i] == before.values@[i - 1]);
                    assert(before.values@[i - 1]@[e] is Some ==> before.values@[i - 1]@[e]->0
                        < self.next_border);
                }
            }
            assert forall|a: u64, e: int| #[trigger] self.spec_border(a, e) == old(self).spec_border(
                a,
                e,
            ) by {
                self.inner.lemma_index_unique(at as int);
                if a != tile_id && before.spec_contains(a) {
                    assert(self.inner.spec_get(a) == before.spec_get(a));
                }
            }
        }
    }

    /// Gives the border to the side of the tile type in the direction. No
    /// other side gets or loses a border by this.
    pub fn set_border_id(&mut self, border_id: u64, tile_id: u64, direction: D::Dir)
        requires
            old(self).wf(),
            old(self).inner.spec_contains(tile_id),
            border_id < old(self).next_border,
        ensures
            final(self).wf(),
            final(self).next_border == old(self).next_border,
            final(self).tiles == old(self).tiles,
            final(self).adjacency_rules == old(self).adjacency_rules,
            final(self).inner.ids@ == old(self).inner.ids@,
            forall|a: u64, d: int|
                0 <= d < D::Dir::spec_count() ==> #[trigger] final(self).spec_border(a, d) == if a
                    == tile_id && d == direction.spec_idx() {
                    Some(border_id)
                } else {
                    old(self).spec_border(a, d)
                },
    {
        proof {
            direction.lemma_idx();
        }
        let found: Option<usize> = self.inner.find(tile_id);
        let at: usize = found.unwrap();
        let ghost before = self.inner;
        let e: usize = direction.as_idx();
        proof {
            assert(self.inner.values@[at as int]@.len() == D::Dir::spec_count());
        }
        self.inner.values[at][e] = Some(border_id);
        proof {
            assert forall|i: int| 0 <= i < self.inner.values@.len() implies (
            #[trigger] self.inner.values@[i])@.len() == D::Dir::spec_count() by {
                if i != at {
                    assert(self.inner.values@[i] == before.values@[i]);
                }
            }
            assert forall|i: int, d: int|
                0 <= i < self.inner.values@.len() && 0 <= d < D::Dir::spec_count() implies match (
            #[trigger] self.inner.values@[i]@[d]) {
                Some(border) => border < self.next_border,
                None => true,
            } by {
                if i != at {
                    assert(self.inner.values@[i] == before.values@[i]);
                    assert(before.values@[i]@[d] is Some ==> before.values@[i]@[d]->0
                        < self.next_border);
                } else if d != e {
                    assert(before.values@[i]@[d] is Some ==> before.values@[i]@[d]->0
                        < self.next_border);
                }
            }
            assert forall|a: u64, d: int| 0 <= d < D::Dir::spec_count() implies #[trigger] self.spec_border(
                a,
                d,
            ) == if a == tile_id && d == direction.spec_idx() {
                Some(border_id)
            } else {
                old(self).spec_border(a, d)
            } by {
                if before.spec_contains(a) {
                    let k = before.spec_index_of(a);
                    if k != at {
                        assert(self.inner.values@[k] == before.values@[k]);
                    }
                }
            }
        }
    }

    /// Merges the border `existing` into the border `into`: every side of
    /// the first is a side of the second afterwards.
    pub fn unify_border_id(&mut self, existing: u64, into: u64)
        requires
            old(self).wf(),
            into < old(self).next_border,
        ensures
            final(self).wf(),
            final(self).next_border == old(self).next_border,
            final(self).tiles == old(self).tiles,
            final(self).adjacency_rules == old(self).adjacency_rules,
            final(self).inner.ids@ == old(self).inner.ids@,
            forall|a: u64, d: int|
                0 <= d < D::Dir::spec_count() ==> #[trigger] final(self).spec_border(a, d) == if old(self).spec_border(a, d) == Some(existing) {
                    Some(into)
                } else {
                    old(self).spec_border(a, d)
                },
    {
        let n: usize = D::Dir::count();
        let count: usize = self.inner.values.len();
        let mut i: usize = 0;
        while i < count
            invariant
                self.inner.ids@ == old(self).inner.ids@,
                self.inner.values@.len() == old(self).inner.values@.len(),
                self.next_border == old(self).next_border,
                self.tiles == old(self).tiles,
                self.adjacency_rules == old(self).adjacency_rules,
                old(self).wf(),
                into < self.next_border,
                0 <= i <= count,
                count == self.inner.values@.len(),
                n == D::Dir::spec_count(),
                forall|k: int|
                    0 <= k < count ==> (#[trigger] self.inner.values@[k])@.len() == n,
                forall|k: int| i <= k < count ==> self.inner.values@[k] == old(self).inner.values@[k],
                forall|k: int, d: int|
                    0 <= k < i && 0 <= d < n ==> #[trigger] self.inner.values@[k]@[d] == if old(self).inner.values@[k]@[d] == Some(existing) {
                        Some(into)
                    } else {
                        old(self).inner.values@[k]@[d]
                    },
            decreases count - i,
        {
            let mut d: usize = 0;
            while d < n
                invariant
                    self.inner.ids@ == old(self).inner.ids@,
                    self.inner.values@.len() == old(self).inner.values@.len(),
                    self.next_border == old(self).next_border,
                    self.tiles == old(self).tiles,
                    self.adjacency_rules == old(self).adjacency_rules,
                    old(self).wf(),
                    0 <= i < count,
                    0 <= d <= n,
                    count == self.inner.values@.len(),
                    n == D::Dir::spec_count(),
                    forall|k: int|
                        0 <= k < count ==> (#[trigger] self.inner.values@[k])@.len() == n,
                    forall|k: int|
                        i < k < count ==> self.inner.values@[k] == old(self).inner.values@[k],
                    forall|k: int, e: int|
                        0 <= k < i && 0 <= e < n ==> #[trigger] self.inner.values@[k]@[e] == if old(self).inner.values@[k]@[e] == Some(existing) {
                            Some(into)
                        } else {
                            old(self).inner.values@[k]@[e]
                        },
                    forall|e: int|
                        0 <= e < d ==> #[trigger] self.inner.values@[i as int]@[e] == if old(self).inner.values@[i as int]@[e] == Some(existing) {
                            Some(into)
                        } else {
                            old(self).inner.values@[i as int]@[e]
                        },
                    forall|e: int|
                        d <= e < n ==> self.inner.values@[i as int]@[e] == old(self).inner.values@[i as int]@[e],
                decreases n - d,
            {
                let ghost before = self.inner.values@;
                let current: Option<u64> = self.inner.values[i][d];
                let replace: bool = match current {
                    Some(border) => border == existing,
                    None => false,
                };
                if replace {
                    self.inner.values[i][d] = Some(into);
                }
                proof {
                    assert forall|k: int, e: int|
                        0 <= k < i && 0 <= e < n implies #[trigger] self.inner.values@[k]@[e] == if old(self).inner.values@[k]@[e] == Some(existing) {
                        Some(into)
                    } else {
                        old(self).inner.values@[k]@[e]
                    } by {
                        assert(self.inner.values@[k] == before[k]);
                    }
                }
                d = d + 1;
            }
            i = i + 1;
        }
        proof {
            assert forall|k: int, d: int|
                0 <= k < self.inner.values@.len() && 0 <= d < D::Dir::spec_count() implies match (
            #[trigger] self.inner.values@[k]@[d]) {
                Some(border) => border < self.next_border,
                None => true,
            } by {
                assert(old(self).inner.values@[k]@[d] is Some ==> old(self).inner.values@[k]@[d]->0
                    < self.next_border);
            }
            assert forall|a: u64, d: int| 0 <= d < D::Dir::spec_count() implies #[trigger] self.spec_border(
                a,
                d,
            ) == if old(self).spec_border(a, d) == Some(existing) {
                Some(into)
            } else {
                old(self).spec_border(a, d)
            } by {
                if self.inner.spec_contains(a) {
                    let k = self.inner.spec_index_of(a);
                    assert(self.inner.values@[k]@[d] == if old(self).inner.values@[k]@[d] == Some(
                        existing,
                    ) {
                        Some(into)
                    } else {
                        old(self).inner.values@[k]@[d]
                    });
                }
            }
        }
    }

    /// Whether one can step from the side `x` to the side `y`: the two have
    /// the same border, or the map shows them touching.
    pub open spec fn spec_step<Data: TypedData>(
        &self,
        map: &GridMap<D, Data>,
        x: (u64, int),
        y: (u64, int),
    ) -> bool {
        self.spec_joined(x.0, x.1, y.0, y.1) || spec_edge(map, x, y) || spec_edge(map, y, x)
    }

    /// Whether one can step from each side of the chain to the next.
    pub open spec fn spec_chain<Data: TypedData>(
        &self,
        map: &GridMap<D, Data>,
        chain: Seq<(u64, int)>,
    ) -> bool {
        chain.len() > 0 && forall|i: int|
            0 <= i < chain.len() - 1 ==> self.spec_step(map, #[trigger] chain[i], chain[i + 1])
    }

    /// Whether a chain of steps leads from the side `s` to the side `t`.
    pub open spec fn spec_linked<Data: TypedData>(
        &self,
        map: &GridMap<D, Data>,
        s: (u64, int),
        t: (u64, int),
    ) -> bool {
        exists|chain: Seq<(u64, int)>| #[trigger]
            self.spec_chain(map, chain) && chain[0] == s && chain[chain.len() - 1] == t
    }

    /// Whether the analyzer has joined no more than what the borders of
    /// `first` and the map link: two sides have the same border only where
    /// a chain of steps leads from the one to the other, each step between
    /// two sides that had the same border in `first` or that the map shows
    /// touching.
    pub open spec fn spec_within<Data: TypedData>(&self, first: &Self, map: &GridMap<D, Data>) -> bool {
        forall|a: u64, da: int, b: u64, db: int| #[trigger]
            self.spec_joined(a, da, b, db) ==> first.spec_linked(map, (a, da), (b, db))
    }

    /// An analyzer has joined no more than what its own borders link.
    pub proof fn lemma_within_self<Data: TypedData>(&self, map: &GridMap<D, Data>)
        ensures
            self.spec_within(self, map),
    {
        assert forall|a: u64, da: int, b: u64, db: int| #[trigger]
            self.spec_joined(a, da, b, db) implies self.spec_linked(map, (a, da), (b, db)) by {
            self.lemma_linked_one(map, (a, da), (b, db));
        }
    }

    /// An analyzer with the borders of another has joined no more than the
    /// other.
    pub proof fn lemma_within_same<Data: TypedData>(&self, other: &Self, first: &Self, map: &GridMap<D, Data>)
        requires
            self.inner == other.inner,
            other.spec_within(first, map),
        ensures
            self.spec_within(first, map),
    {
        assert forall|a: u64, da: int, b: u64, db: int| #[trigger]
            self.spec_joined(a, da, b, db) implies first.spec_linked(map, (a, da), (b, db)) by {
            assert(other.spec_joined(a, da, b, db));
        }
    }

    /// A side is linked to itself.
    pub proof fn lemma_linked_self<Data: TypedData>(&self, map: &GridMap<D, Data>, s: (u64, int))
        ensures
            self.spec_linked(map, s, s),
    {
        let chain = seq![s];
        assert(self.spec_chain(map, chain));
        assert(chain[0] == s && chain[chain.len() - 1] == s);
    }

    /// One step links two sides.
    pub proof fn lemma_linked_one<Data: TypedData>(
        &self,
        map: &GridMap<D, Data>,
        s: (u64, int),
        t: (u64, int),
    )
        requires
            self.spec_step(map, s, t),
        ensures
            self.spec_linked(map, s, t),
    {
        let chain = seq![s, t];
        assert(self.spec_chain(map, chain));
        assert(chain[0] == s && chain[chain.len() - 1] == t);
    }

    /// Two chains that meet make one.
    pub proof fn lemma_linked_join<Data: TypedData>(
        &self,
        map: &GridMap<D, Data>,
        s: (u64, int),
        m: (u64, int),
        t: (u64, int),
    )
        requires
            self.spec_linked(map, s, m),
            self.spec_linked(map, m, t),
        ensures
            self.spec_linked(map, s, t),
    {
        let front = choose|chain: Seq<(u64, int)>| #[trigger]
            self.spec_chain(map, chain) && chain[0] == s && chain[chain.len() - 1] == m;
        let back = choose|chain: Seq<(u64, int)>| #[trigger]
            self.spec_chain(map, chain) && chain[0] == m && chain[chain.len() - 1] == t;
        let chain = front + back.subrange(1, back.len() as int);
        assert forall|i: int| 0 <= i < chain.len() - 1 implies self.spec_step(
            map,
            #[trigger] chain[i],
            chain[i + 1],
        ) by {
            if i + 1 < front.len() {
                assert(chain[i] == front[i]);
                assert(chain[i + 1] == front[i + 1]);
            } else if i + 1 == front.len() {
                assert(chain[i] == front[i]);
                assert(chain[i] == back[0]);
                assert(chain[i + 1] == back[1]);
            } else {
                let j = i - front.len() + 1;
                assert(chain[i] == back[j]);
                assert(chain[i + 1] == back[j + 1]);
            }
        }
        assert(self.spec_chain(map, chain));
        assert(chain[0] == s);
        if back.len() == 1 {
            assert(chain[chain.len() - 1] == front[front.len() - 1]);
        } else {
            assert(chain[chain.len() - 1] == back[back.len() - 1]);
        }
    }

    /// Every side of a chain of an analyzer that has joined no more than
    /// what `first` and the map link is linked to the first side of the
    /// chain under `first`.
    pub proof fn lemma_chain_through<Data: TypedData>(
        &self,
        first: &Self,
        map: &GridMap<D, Data>,
        chain: Seq<(u64, int)>,
        n: int,
    )
        requires
            self.spec_chain(map, chain),
            self.spec_within(first, map),
            0 <= n < chain.len(),
        ensures
            first.spec_linked(map, chain[0], chain[n]),
        decreases n,
    {
        if n == 0 {
            first.lemma_linked_self(map, chain[0]);
        } else {
            self.lemma_chain_through(first, map, chain, n - 1);
            let x = chain[n - 1];
            let y = chain[n];
            assert(self.spec_step(map, x, y));
            if self.spec_joined(x.0, x.1, y.0, y.1) {
                assert(first.spec_linked(map, (x.0, x.1), (y.0, y.1)));
            } else {
                first.lemma_linked_one(map, x, y);
            }
            first.lemma_linked_join(map, chain[0], x, y);
        }
    }

    /// What has been joined within what has been joined within `first` has
    /// been joined within `first`.
    pub proof fn lemma_within_trans<Data: TypedData>(&self, mid: &Self, first: &Self, map: &GridMap<D, Data>)
        requires
            self.spec_within(mid, map),
            mid.spec_within(first, map),
        ensures
            self.spec_within(first, map),
    {
        assert forall|a: u64, da: int, b: u64, db: int| #[trigger]
            self.spec_joined(a, da, b, db) implies first.spec_linked(map, (a, da), (b, db)) by {
            assert(mid.spec_linked(map, (a, da), (b, db)));
            let chain = choose|chain: Seq<(u64, int)>| #[trigger]
                mid.spec_chain(map, chain) && chain[0] == (a, da) && chain[chain.len() - 1] == (b, db);
            mid.lemma_chain_through(first, map, chain, chain.len() - 1);
        }
    }

    /// Making the borders of two sides one that the map shows touching
    /// joins no more than what the map links.
    pub proof fn lemma_within_step<Data: TypedData>(
        &self,
        before: &Self,
        first: &Self,
        map: &GridMap<D, Data>,
        tile_id: u64,
        direction: int,
        adjacent_id: u64,
    )
        requires
            before.spec_within(first, map),
            0 <= direction < D::Dir::spec_count(),
            spec_observed(map, tile_id, direction, adjacent_id),
            forall|a: u64, da: int, b: u64, db: int|
                0 <= da < D::Dir::spec_count() && 0 <= db < D::Dir::spec_count() ==> (
                #[trigger] self.spec_joined(a, da, b, db) <==> (before.spec_joined(a, da, b, db) || (
                before.spec_touched((a, da), tile_id, direction, adjacent_id) && before.spec_touched(
                    (b, db),
                    tile_id,
                    direction,
                    adjacent_id,
                )))),
        ensures
            self.spec_within(first, map),
    {
        let back = D::Dir::spec_from_idx(direction as nat).spec_opposite().spec_idx() as int;
        let x = (tile_id, direction);
        let y = (adjacent_id, back);
        assert(spec_edge(map, x, y));
        first.lemma_linked_one(map, x, y);
        first.lemma_linked_one(map, y, x);
        first.lemma_linked_self(map, x);
        first.lemma_linked_self(map, y);
        assert forall|a: u64, da: int, b: u64, db: int| #[trigger]
            self.spec_joined(a, da, b, db) implies first.spec_linked(map, (a, da), (b, db)) by {
            assert(0 <= da < D::Dir::spec_count() && 0 <= db < D::Dir::spec_count());
            if !before.spec_joined(a, da, b, db) {
                let s = (a, da);
                let t = (b, db);
                // from `s` to `x`
                if s == x {
                } else if s == y {
                } else if before.spec_joined(a, da, tile_id, direction) {
                    assert(first.spec_linked(map, (a, da), (tile_id, direction)));
                } else {
                    assert(before.spec_joined(a, da, adjacent_id, back));
                    assert(first.spec_linked(map, (a, da), (adjacent_id, back)));
                    first.lemma_linked_join(map, s, y, x);
                }
                if s == y {
                    first.lemma_linked_join(map, s, y, x);
                }
                assert(first.spec_linked(map, s, x));
                // from `x` to `t`
                if t == x {
                } else if t == y {
                } else if before.spec_joined(b, db, tile_id, direction) {
                    assert(before.spec_joined(tile_id, direction, b, db));
                    assert(first.spec_linked(map, (tile_id, direction), (b, db)));
                } else {
                    assert(before.spec_joined(b, db, adjacent_id, back));
                    assert(before.spec_joined(adjacent_id, back, b, db));
                    assert(first.spec_linked(map, (adjacent_id, back), (b, db)));
                    first.lemma_linked_join(map, x, y, t);
                }
                assert(first.spec_linked(map, x, t));
                first.lemma_linked_join(map, s, x, t);
            }
        }
    }

    /// Whether the side could be told from the two sides that have just
    /// been seen to touch: it is one of them, or had the border of one of
    /// them.
    pub open spec fn spec_touched(
        &self,
        side: (u64, int),
        tile_id: u64,
        direction: int,
        adjacent_id: u64,
    ) -> bool {
        let back = D::Dir::spec_from_idx(direction as nat).spec_opposite().spec_idx() as int;
        ||| side == (tile_id, direction)
        ||| side == (adjacent_id, back)
        ||| self.spec_joined(side.0, side.1, tile_id, direction)
        ||| self.spec_joined(side.0, side.1, adjacent_id, back)
    }

    /// Takes into account that a tile of the type `adjacent_id` has been
    /// seen beside a tile of the type `tile_id`, in the direction: the side
    /// of the first toward the second and the side of the second toward the
    /// first get the same border, and so does every side that shared a
    /// border with either. No other two sides are joined by this.
    pub fn add_adjacency_raw(&mut self, tile_id: u64, adjacent_id: u64, direction: D::Dir)
        requires
            old(self).wf(),
            old(self).next_border < u64::MAX,
        ensures
            final(self).wf(),
            final(self).tiles == old(self).tiles,
            final(self).adjacency_rules == old(self).adjacency_rules,
            final(self).next_border <= old(self).next_border + 1,
            forall|a: u64, da: int, b: u64, db: int|
                0 <= da < D::Dir::spec_count() && 0 <= db < D::Dir::spec_count() ==> (
                #[trigger] final(self).spec_joined(a, da, b, db) <==> (old(self).spec_joined(
                    a,
                    da,
                    b,
                    db,
                ) || (old(self).spec_touched((a, da), tile_id, direction.spec_idx() as int, adjacent_id)
                    && old(self).spec_touched(
                    (b, db),
                    tile_id,
                    direction.spec_idx() as int,
                    adjacent_id,
                )))),
    {
        let back: D::Dir = direction.opposite();
        proof {
            direction.lemma_idx();
            direction.lemma_opposite();
            back.lemma_idx();
            D::Dir::lemma_from_idx(direction.spec_idx());
        }
        self.ensure_adjacencies_present_for_tile(tile_id);
        self.ensure_adjacencies_present_for_tile(adjacent_id);
        let ghost ready = *self;
        let ghost fresh: u64 = self.next_border;
        let left: Option<u64> = self.get_border_id(tile_id, direction);
        let right: Option<u64> = self.get_border_id(adjacent_id, back);
        match (left, right) {
            (None, None) => {
                let new_id: u64 = self.next_border;
                self.next_border = self.next_border + 1;
                proof {
                    assert forall|i: int, d: int|
                        0 <= i < self.inner.values@.len() && 0 <= d < D::Dir::spec_count() implies match (
                    #[trigger] self.inner.values@[i]@[d]) {
                        Some(border) => border < new_id,
                        None => true,
                    } by {
                        assert(ready.inner.values@[i]@[d] is Some ==> ready.inner.values@[i]@[d]->0
                            < ready.next_border);
                    }
                    assert forall|a: u64, d: int|
                        ready.spec_border(a, d) is Some implies ready.spec_border(a, d)->0 < new_id by {
                        let k = ready.inner.spec_index_of(a);
                        assert(ready.inner.values@[k]@[d] is Some ==> ready.inner.values@[k]@[d]->0
                            < ready.next_border);
                    }
                }
                self.set_border_id(new_id, tile_id, direction);
                self.set_border_id(new_id, adjacent_id, back);
            },
            (None, Some(id_border)) => {
                self.set_border_id(id_border, tile_id, direction);
            },
            (Some(id_border), None) => {
                self.set_border_id(id_border, adjacent_id, back);
            },
            (Some(id_left), Some(id_right)) => {
                if id_left != id_right {
                    if id_left < id_right {
                        self.unify_border_id(id_right, id_left);
                    } else {
                        self.unify_border_id(id_left, id_right);
                    }
                }
            },
        }
        proof {
            let d = direction.spec_idx() as int;
            let bk = back.spec_idx() as int;
            let t = (tile_id, d);
            let u = (adjacent_id, bk);
            let before = |s: (u64, int)| old(self).spec_border(s.0, s.1);
            let after = |s: (u64, int)| self.spec_border(s.0, s.1);
            assert forall|s: (u64, int)| #[trigger] before(s) == ready.spec_border(s.0, s.1) by {}
            assert forall|s: (u64, int)| #[trigger] before(s) != Some(fresh) by {
                if ready.spec_border(s.0, s.1) is Some {
                    let k = ready.inner.spec_index_of(s.0);
                    assert(ready.inner.values@[k]@[s.1] is Some ==> ready.inner.values@[k]@[s.1]->0
                        < ready.next_border);
                }
            }
            assert(spec_borders_merged(before, after, t, u, fresh)) by {
                assert forall|s: (u64, int)| !(0 <= s.1 < D::Dir::spec_count()) implies #[trigger] after(
                    s,
                ) == before(s) && s != t && s != u && before(s) is None by {}
            }
            lemma_borders_merged(before, after, t, u, fresh);
            assert forall|a: u64, da: int, b: u64, db: int|
                0 <= da < D::Dir::spec_count() && 0 <= db < D::Dir::spec_count() implies (
            #[trigger] self.spec_joined(a, da, b, db) <==> (old(self).spec_joined(a, da, b, db) || (
            old(self).spec_touched((a, da), tile_id, d, adjacent_id) && old(self).spec_touched(
                (b, db),
                tile_id,
                d,
                adjacent_id,
            )))) by {
                assert(spec_same_border(after, (a, da), (b, db)) == self.spec_joined(a, da, b, db));
                assert(spec_same_border(before, (a, da), (b, db)) == old(self).spec_joined(
                    a,
                    da,
                    b,
                    db,
                ));
                assert(spec_beside(before, (a, da), t, u) == old(self).spec_touched(
                    (a, da),
                    tile_id,
                    d,
                    adjacent_id,
                ));
                assert(spec_beside(before, (b, db), t, u) == old(self).spec_touched(
                    (b, db),
                    tile_id,
                    d,
                    adjacent_id,
                ));
            }
        }
    }

    /// Lets tiles of the type of `neighbour` stand beside tiles of the type
    /// of `tile` in the direction, as far as the borders go: see
    /// `add_adjacency_raw`.
    pub fn add_adjacency<Data: TypedData>(&mut self, tile: &Data, neighbour: &Data, direction: &D::Dir)
        requires
            old(self).wf(),
            old(self).next_border < u64::MAX,
        ensures
            final(self).wf(),
            final(self).tiles == old(self).tiles,
            final(self).adjacency_rules == old(self).adjacency_rules,
            final(self).next_border <= old(self).next_border + 1,
            forall|a: u64, da: int, b: u64, db: int|
                0 <= da < D::Dir::spec_count() && 0 <= db < D::Dir::spec_count() ==> (
                #[trigger] final(self).spec_joined(a, da, b, db) <==> (old(self).spec_joined(
                    a,
                    da,
                    b,
                    db,
                ) || (old(self).spec_touched(
                    (a, da),
                    tile.spec_tile_type_id(),
                    direction.spec_idx() as int,
                    neighbour.spec_tile_type_id(),
                ) && old(self).spec_touched(
                    (b, db),
                    tile.spec_tile_type_id(),
                    direction.spec_idx() as int,
                    neighbour.spec_tile_type_id(),
                )))),
    {
        self.add_adjacency_raw(tile.tile_type_id(), neighbour.tile_type_id(), *direction)
    }

    /// Whether the pair of the tile types at the indices `ia` and `ib` has
    /// been looked at in the direction of index `d`, by the time the pair at
    /// `i` and `j` is about to be looked at in the direction of index `e`.
    pub open spec fn spec_looked_at(ia: int, ib: int, d: int, i: int, j: int, e: int) -> bool {
        ia < i || (ia == i && (ib < j || (ib == j && d < e)))
    }

    /// Makes a rule of every pair of sides that share a border: a tile type
    /// may stand beside another in a direction wherever its side in that
    /// direction and the side of the other in the opposite direction have the
    /// same border. The rules that were there stay.
    pub fn generate_adjacency_rules(&mut self)
        requires
            old(self).wf(),
        ensures
            final(self).wf(),
            final(self).tiles == old(self).tiles,
            final(self).inner == old(self).inner,
            final(self).next_border == old(self).next_border,
            forall|a: u64, d: int, b: u64|
                0 <= d < D::Dir::spec_count() ==> (#[trigger] final(self).adjacency_rules.spec_allowed(
                    a,
                    d,
                    b,
                ) <==> (old(self).adjacency_rules.spec_allowed(a, d, b) || old(self).spec_joined(
                    a,
                    d,
                    b,
                    crate::collapse::support::spec_opposite_idx::<D>(d),
                ))),
    {
        let count: usize = self.inner.ids.len();
        let n: usize = D::Dir::count();
        let mut i: usize = 0;
        while i < count
            invariant
                self.wf(),
                self.tiles == old(self).tiles,
                self.inner == old(self).inner,
                self.next_border == old(self).next_border,
                0 <= i <= count,
                count == self.inner.ids@.len(),
                n == D::Dir::spec_count(),
                forall|a: u64, d: int, b: u64|
                    0 <= d < D::Dir::spec_count() ==> (
                    #[trigger] self.adjacency_rules.spec_allowed(a, d, b) <==> (old(self).adjacency_rules.spec_allowed(a, d, b) || (self.spec_joined(
                        a,
                        d,
                        b,
                        crate::collapse::support::spec_opposite_idx::<D>(d),
                    ) && Self::spec_looked_at(
                        self.inner.spec_index_of(a),
                        self.inner.spec_index_of(b),
                        d,
                        i as int,
                        0,
                        0,
                    )))),
            decreases count - i,
        {
            let mut j: usize = 0;
            while j < count
                invariant
                    self.wf(),
                    self.tiles == old(self).tiles,
                    self.inner == old(self).inner,
                    self.next_border == old(self).next_border,
                    0 <= i < count,
                    0 <= j <= count,
                    count == self.inner.ids@.len(),
                    n == D::Dir::spec_count(),
                    forall|a: u64, d: int, b: u64|
                        0 <= d < D::Dir::spec_count() ==> (
                        #[trigger] self.adjacency_rules.spec_allowed(a, d, b) <==> (old(self).adjacency_rules.spec_allowed(a, d, b) || (self.spec_joined(
                            a,
                            d,
                            b,
                            crate::collapse::support::spec_opposite_idx::<D>(d),
                        ) && Self::spec_looked_at(
                            self.inner.spec_index_of(a),
                            self.inner.spec_index_of(b),
                            d,
                            i as int,
                            j as int,
                            0,
                        )))),
                decreases count - j,
            {
                let mut e: usize = 0;
                while e < n
                    invariant
                        self.wf(),
                        self.tiles == old(self).tiles,
                        self.inner == old(self).inner,
                        self.next_border == old(self).next_border,
                        0 <= i < count,
                        0 <= j < count,
                        0 <= e <= n,
                        count == self.inner.ids@.len(),
                        n == D::Dir::spec_count(),
                        forall|a: u64, d: int, b: u64|
                            0 <= d < D::Dir::spec_count() ==> (
                            #[trigger] self.adjacency_rules.spec_allowed(a, d, b) <==> (old(self).adjacency_rules.spec_allowed(a, d, b) || (self.spec_joined(
                                a,
                                d,
                                b,
                                crate::collapse::support::spec_opposite_idx::<D>(d),
                            ) && Self::spec_looked_at(
                                self.inner.spec_index_of(a),
                                self.inner.spec_index_of(b),
                                d,
                                i as int,
                                j as int,
                                e as int,
                            )))),
                    decreases n - e,
                {
                    let direction: D::Dir = D::Dir::from_idx(e);
                    let back: D::Dir = direction.opposite();
                    proof {
                        D::Dir::lemma_from_idx(e as nat);
                        back.lemma_idx();
                        self.inner.lemma_index_unique(i as int);
                        self.inner.lemma_index_unique(j as int);
                        assert(self.inner.values@[i as int]@.len() == n);
                        assert(self.inner.values@[j as int]@.len() == n);
                    }
                    let first: Option<u64> = self.inner.values[i][e];
                    let second: Option<u64> = self.inner.values[j][back.as_idx()];
                    let tile_id: u64 = self.inner.ids[i];
                    let other_id: u64 = self.inner.ids[j];
                    let joined: bool = match (first, second) {
                        (Some(x), Some(y)) => x == y,
                        _ => false,
                    };
                    let ghost rules_before = self.adjacency_rules;
                    if joined {
                        self.adjacency_rules.add_adjacency_raw(tile_id, other_id, direction);
                    }
                    proof {
                        assert forall|a: u64, d: int, b: u64| 0 <= d < D::Dir::spec_count() implies (
                        #[trigger] self.adjacency_rules.spec_allowed(a, d, b) <==> (old(self).adjacency_rules.spec_allowed(a, d, b) || (self.spec_joined(
                            a,
                            d,
                            b,
                            crate::collapse::support::spec_opposite_idx::<D>(d),
                        ) && Self::spec_looked_at(
                            self.inner.spec_index_of(a),
                            self.inner.spec_index_of(b),
                            d,
                            i as int,
                            j as int,
                            e as int + 1,
                        )))) by {
                            assert(rules_before.spec_allowed(a, d, b) <==> (old(self).adjacency_rules.spec_allowed(a, d, b) || (self.spec_joined(
                                a,
                                d,
                                b,
                                crate::collapse::support::spec_opposite_idx::<D>(d),
                            ) && Self::spec_looked_at(
                                self.inner.spec_index_of(a),
                                self.inner.spec_index_of(b),
                                d,
                                i as int,
                                j as int,
                                e as int,
                            ))));
                            if self.spec_joined(
                                a,
                                d,
                                b,
                                crate::collapse::support::spec_opposite_idx::<D>(d),
                            ) {
                                D::Dir::lemma_from_idx(d as nat);
                                D::Dir::spec_from_idx(d as nat).spec_opposite().lemma_idx();
                                let ka = self.inner.spec_index_of(a);
                                let kb = self.inner.spec_index_of(b);
                                assert(self.inner.ids@[ka] == a);
                                assert(self.inner.ids@[kb] == b);
                                if ka == i && kb == j && d == e {
                                    assert(a == tile_id && b == other_id);
                                }
                            }
                            if a == tile_id && b == other_id && d == e {
                                assert(self.inner.spec_index_of(a) == i);
                                assert(self.inner.spec_index_of(b) == j);
                            }
                        }
                    }
                    e = e + 1;
                }
                j = j + 1;
            }
            i = i + 1;
        }
        proof {
            assert forall|a: u64, d: int, b: u64| 0 <= d < D::Dir::spec_count() implies (
            #[trigger] self.adjacency_rules.spec_allowed(a, d, b) <==> (old(self).adjacency_rules.spec_allowed(a, d, b) || old(self).spec_joined(
                a,
                d,
                b,
                crate::collapse::support::spec_opposite_idx::<D>(d),
            ))) by {
                if self.spec_joined(a, d, b, crate::collapse::support::spec_opposite_idx::<D>(d)) {
                    assert(self.inner.spec_contains(a));
                    let ka = self.inner.spec_index_of(a);
                    assert(0 <= ka < count);
                }
            }
        }
    }

    /// Makes a rule of every pair of sides that share a border; see
    /// `generate_adjacency_rules`.
    pub fn prepare(&mut self)
        requires
            old(self).wf(),
        ensures
            final(self).wf(),
            final(self).tiles == old(self).tiles,
            final(self).inner == old(self).inner,
            final(self).next_border == old(self).next_border,
            forall|a: u64, d: int, b: u64|
                0 <= d < D::Dir::spec_count() ==> (#[trigger] final(self).adjacency_rules.spec_allowed(
                    a,
                    d,
                    b,
                ) <==> (old(self).adjacency_rules.spec_allowed(a, d, b) || old(self).spec_joined(
                    a,
                    d,
                    b,
                    crate::collapse::support::spec_opposite_idx::<D>(d),
                ))),
    {
        self.generate_adjacency_rules()
    }

    /// Takes the tile at the position into account, if there is one: its
    /// type, and the borders that it shares with its neighbours.
    pub fn analyze_tile_at_pos<Data: TypedData>(&mut self, map: &GridMap<D, Data>, pos: D::Pos)
        requires
            old(self).wf(),
            map.wf(),
            map.size.spec_valid(&pos),
            old(self).next_border + D::Dir::spec_count() <= u64::MAX,
        ensures
            final(self).wf(),
            final(self).adjacency_rules == old(self).adjacency_rules,
            final(self).next_border <= old(self).next_border + D::Dir::spec_count(),
            forall|a: u64, da: int, b: u64, db: int|
                0 <= da < D::Dir::spec_count() && 0 <= db < D::Dir::spec_count() && old(self).spec_joined(a, da, b, db) ==> #[trigger] final(self).spec_joined(a, da, b, db),
            forall|a: u64, d: int, b: u64|
                0 <= d < D::Dir::spec_count() && #[trigger] spec_observed_at(
                    map,
                    a,
                    d,
                    b,
                    map.size.spec_offset(&pos) as int,
                ) ==> final(self).spec_joined(
                    a,
                    d,
                    b,
                    crate::collapse::support::spec_opposite_idx::<D>(d),
                ),
            final(self).spec_within(old(self), map),
    {
        proof {
            map.size.lemma_offset_in_range(&pos);
            map.size.lemma_pos_from_offset_of_offset(&pos);
            old(self).lemma_within_self(map);
        }
        let ghost at = map.size.spec_offset(&pos) as int;
        match map.get_data_at_position(&pos) {
            Some(tile) => {
                let id: u64 = tile.tile_type_id();
                record_tile(&mut self.tiles, id);
                let n: usize = D::Dir::count();
                let mut d: usize = 0;
                proof {
                    assert(self.inner == old(self).inner);
                    self.lemma_within_same(old(self), old(self), map);
                }
                while d < n
                    invariant
                        self.spec_within(old(self), map),
                        self.wf(),
                        self.adjacency_rules == old(self).adjacency_rules,
                        map.wf(),
                        map.size.spec_valid(&pos),
                        at == map.size.spec_offset(&pos),
                        map.size.spec_pos_from_offset(at as nat) == pos,
                        0 <= at < map.tiles@.len(),
                        map.tiles@[at] is Some,
                        map.tiles@[at]->0.spec_tile_type_id() == id,
                        0 <= d <= n,
                        n == D::Dir::spec_count(),
                        self.next_border <= old(self).next_border + d,
                        old(self).next_border + n <= u64::MAX,
                        forall|a: u64, da: int, b: u64, db: int|
                            0 <= da < D::Dir::spec_count() && 0 <= db < D::Dir::spec_count() && old(self).spec_joined(a, da, b, db) ==> #[trigger] self.spec_joined(a, da, b, db),
                        forall|a: u64, e: int, b: u64|
                            0 <= e < d && #[trigger] spec_observed_at(map, a, e, b, at)
                                ==> self.spec_joined(
                                a,
                                e,
                                b,
                                crate::collapse::support::spec_opposite_idx::<D>(e),
                            ),
                    decreases n - d,
                {
                    let direction: D::Dir = D::Dir::from_idx(d);
                    proof {
                        D::Dir::lemma_from_idx(d as nat);
                        direction.lemma_opposite();
                        direction.spec_opposite().lemma_idx();
                    }
                    let ghost before = *self;
                    match map.get_neighbour_at(&pos, &direction) {
                        Some(neighbour) => {
                            let adjacent: u64 = neighbour.data().tile_type_id();
                            self.add_adjacency_raw(id, adjacent, direction);
                            proof {
                                let bk = crate::collapse::support::spec_opposite_idx::<D>(d as int);
                                assert(spec_observed_at(map, id, d as int, adjacent, at));
                                assert(spec_observed(map, id, d as int, adjacent));
                                self.lemma_within_step(&before, old(self), map, id, d as int, adjacent);
                                assert(before.spec_touched((id, d as int), id, d as int, adjacent));
                                assert(before.spec_touched((adjacent, bk), id, d as int, adjacent));
                                assert(self.spec_joined(id, d as int, adjacent, bk));
                            }
                        },
                        None => {},
                    }
                    proof {
                        assert forall|a: u64, e: int, b: u64|
                            0 <= e < d + 1 && #[trigger] spec_observed_at(
                                map,
                                a,
                                e,
                                b,
                                at,
                            ) implies self.spec_joined(
                            a,
                            e,
                            b,
                            crate::collapse::support::spec_opposite_idx::<D>(e),
                        ) by {
                            D::Dir::lemma_from_idx(e as nat);
                            D::Dir::spec_from_idx(e as nat).spec_opposite().lemma_idx();
                            if e < d {
                                assert(before.spec_joined(
                                    a,
                                    e,
                                    b,
                                    crate::collapse::support::spec_opposite_idx::<D>(e),
                                ));
                            }
                        }
                        assert forall|a: u64, da: int, b: u64, db: int|
                            0 <= da < D::Dir::spec_count() && 0 <= db < D::Dir::spec_count() && old(self).spec_joined(a, da, b, db) implies #[trigger] self.spec_joined(
                            a,
                            da,
                            b,
                            db,
                        ) by {
                            assert(before.spec_joined(a, da, b, db));
                        }
                    }
                    d = d + 1;
                }
            },
            None => {},
        }
    }

    /// The rules that the analyzer has arrived at.
    pub fn adjacency(&self) -> (r: &AdjacencyRules<D>)
        ensures
            *r == self.adjacency_rules,
    {
        &self.adjacency_rules
    }
}

impl<D: Dimensionality> AdjacencyAnalyzer<D> for AdjacencyBorderAnalyzer<D> {
    open spec fn spec_wf(&self) -> bool {
        self.wf()
    }

    open spec fn spec_adjacency(&self) -> AdjacencyRules<D> {
        self.adjacency_rules
    }

    open spec fn spec_has_room(&self, cells: nat) -> bool {
        self.next_border + cells * D::Dir::spec_count() <= u64::MAX
    }

    fn adjacency(&self) -> (r: &AdjacencyRules<D>) {
        &self.adjacency_rules
    }

    fn tiles(&self) -> (r: &Vec<u64>) {
        &self.tiles
    }

    /// The rules of before are dropped. Afterwards a tile type may stand
    /// beside another in a direction exactly if its side in that direction
    /// and the side of the other in the opposite direction have the same
    /// border; and no two sides that shared a border have lost it.
    fn analyze<Data: TypedData>(&mut self, map: &GridMap<D, Data>)
        ensures
            forall|a: u64, d: int, b: u64|
                0 <= d < D::Dir::spec_count() ==> (#[trigger] final(self).adjacency_rules.spec_allowed(
                    a,
                    d,
                    b,
                ) <==> final(self).spec_joined(
                    a,
                    d,
                    b,
                    crate::collapse::support::spec_opposite_idx::<D>(d),
                )),
            forall|a: u64, da: int, b: u64, db: int|
                0 <= da < D::Dir::spec_count() && 0 <= db < D::Dir::spec_count() && old(self).spec_joined(a, da, b, db) ==> #[trigger] final(self).spec_joined(a, da, b, db),
            final(self).adjacency_rules.spec_symmetric(),
            final(self).spec_within(old(self), map),
    {
        self.adjacency_rules = AdjacencyRules::new();
        proof {
            old(self).lemma_within_self(map);
            self.lemma_within_same(old(self), old(self), map);
        }
        let n: usize = map.tiles.len();
        let ghost dirs = D::Dir::spec_count() as int;
        let mut i: usize = 0;
        proof {
            assert(0 * dirs == 0) by (nonlinear_arith);
        }
        while i < n
            invariant
                self.spec_within(old(self), map),
                self.wf(),
                map.wf(),
                0 <= i <= n,
                n == map.tiles@.len(),
                dirs == D::Dir::spec_count(),
                self.next_border <= old(self).next_border + i * dirs,
                old(self).next_border + n * dirs <= u64::MAX,
                forall|a: u64, d: int, b: u64| !self.adjacency_rules.spec_allowed(a, d, b),
                forall|a: u64, da: int, b: u64, db: int|
                    0 <= da < D::Dir::spec_count() && 0 <= db < D::Dir::spec_count() && old(self).spec_joined(a, da, b, db) ==> #[trigger] self.spec_joined(a, da, b, db),
                forall|a: u64, d: int, b: u64|
                    0 <= d < D::Dir::spec_count() && #[trigger] spec_observed_in(
                        map,
                        a,
                        d,
                        b,
                        i as int,
                    ) ==> self.spec_joined(
                        a,
                        d,
                        b,
                        crate::collapse::support::spec_opposite_idx::<D>(d),
                    ),
            decreases n - i,
        {
            let position: D::Pos = map.size.pos_from_offset(i);
            proof {
                map.size.lemma_offset_of_pos_from_offset(i as nat);
                assert(i * dirs + dirs == (i + 1) * dirs) by (nonlinear_arith);
                assert((i + 1) * dirs <= n * dirs) by (nonlinear_arith)
                    requires
                        i + 1 <= n,
                        dirs >= 0,
                ;
            }
            let ghost before = *self;
            self.analyze_tile_at_pos(map, position);
            proof {
                self.lemma_within_trans(&before, old(self), map);
                assert forall|a: u64, da: int, b: u64, db: int|
                    0 <= da < D::Dir::spec_count() && 0 <= db < D::Dir::spec_count() && old(self).spec_joined(a, da, b, db) implies #[trigger] self.spec_joined(a, da, b, db) by {
                    assert(before.spec_joined(a, da, b, db));
                }
                assert forall|a: u64, d: int, b: u64|
                    0 <= d < D::Dir::spec_count() && #[trigger] spec_observed_in(
                        map,
                        a,
                        d,
                        b,
                        i as int + 1,
                    ) implies self.spec_joined(
                    a,
                    d,
                    b,
                    crate::collapse::support::spec_opposite_idx::<D>(d),
                ) by {
                    D::Dir::lemma_from_idx(d as nat);
                    D::Dir::spec_from_idx(d as nat).spec_opposite().lemma_idx();
                    let at = choose|at: int|
                        0 <= at < i + 1 && #[trigger] spec_observed_at(map, a, d, b, at);
                    if at < i {
                        assert(spec_observed_in(map, a, d, b, i as int));
                        assert(before.spec_joined(
                            a,
                            d,
                            b,
                            crate::collapse::support::spec_opposite_idx::<D>(d),
                        ));
                    }
                }
            }
            i = i + 1;
        }
        let ghost analysed = *self;
        self.generate_adjacency_rules();
        proof {
            self.lemma_within_same(&analysed, old(self), map);
            assert forall|a: u64, da: int, b: u64, db: int|
                0 <= da < D::Dir::spec_count() && 0 <= db < D::Dir::spec_count() && old(self).spec_joined(a, da, b, db) implies #[trigger] self.spec_joined(a, da, b, db) by {
                assert(analysed.spec_joined(a, da, b, db));
            }
            assert forall|a: u64, d: int, b: u64|
                0 <= d < D::Dir::spec_count() && #[trigger] self.adjacency_rules.inner.spec_allowed(
                    a,
                    d,
                    b,
                ) implies self.adjacency_rules.inner.spec_allowed(
                b,
                D::Dir::spec_from_idx(d as nat).spec_opposite().spec_idx() as int,
                a,
            ) by {
                let back = crate::collapse::support::spec_opposite_idx::<D>(d);
                D::Dir::lemma_from_idx(d as nat);
                D::Dir::spec_from_idx(d as nat).lemma_opposite();
                D::Dir::spec_from_idx(d as nat).spec_opposite().lemma_idx();
                assert(self.adjacency_rules.spec_allowed(a, d, b));
                assert(self.spec_joined(a, d, b, back));
                assert(self.spec_joined(b, back, a, crate::collapse::support::spec_opposite_idx::<D>(back)));
                assert(self.adjacency_rules.spec_allowed(b, back, a));
            }
        }
    }
}

} // verus!
