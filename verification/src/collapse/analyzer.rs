//! Analyzers: adjacency rules and frequency hints read off sample maps.

use vstd::prelude::*;
use crate::collapse::rules::AdjacencyRules;
use crate::collapse::rules::FrequencyHints;
use crate::dimension::Dimensionality;
use crate::direction::Direction;
use crate::id::TypedData;
use crate::map::GridMap;
use crate::position::GridPosition;
use crate::size::GridSize;

verus! {

/// Whether the map shows a tile of type `b` beside a tile of type `a`, in the
/// direction with the given index, at one of its first `n` cells.
pub open spec fn spec_observed_in<D: Dimensionality, Data: TypedData>(
    map: &GridMap<D, Data>,
    a: u64,
    direction: int,
    b: u64,
    n: int,
) -> bool {
    exists|at: int| 0 <= at < n && #[trigger] spec_observed_at(map, a, direction, b, at)
}

/// Whether the cell at offset `at` holds a tile of type `a` and its
/// neighbour in the direction with the given index holds a tile of type `b`.
pub open spec fn spec_observed_at<D: Dimensionality, Data: TypedData>(
    map: &GridMap<D, Data>,
    a: u64,
    direction: int,
    b: u64,
    at: int,
) -> bool {
    let position = map.size.spec_pos_from_offset(at as nat);
    &&& 0 <= at < map.tiles@.len()
    &&& map.tiles@[at] is Some
    &&& map.tiles@[at]->0.spec_tile_type_id() == a
    &&& map.spec_neighbour(position, D::Dir::spec_from_idx(direction as nat)) is Some
    &&& map.spec_neighbour(position, D::Dir::spec_from_idx(direction as nat))->0.spec_tile_type_id()
        == b
}

/// Whether the map shows a tile of type `b` beside a tile of type `a`, in the
/// direction with the given index.
pub open spec fn spec_observed<D: Dimensionality, Data: TypedData>(
    map: &GridMap<D, Data>,
    a: u64,
    direction: int,
    b: u64,
) -> bool {
    spec_observed_in(map, a, direction, b, map.tiles@.len() as int)
}

/// Number of tiles among the first `n` cells of the map.
pub open spec fn spec_tile_count<Data>(tiles: Seq<Option<Data>>, n: int) -> int
    decreases n,
{
    if n <= 0 {
        0
    } else {
        spec_tile_count(tiles, n - 1) + if tiles[n - 1] is Some {
            1int
        } else {
            0int
        }
    }
}

/// Number of tiles of the type `id` among the first `n` cells of the map.
pub open spec fn spec_type_count<Data: TypedData>(tiles: Seq<Option<Data>>, id: u64, n: int) -> int
    decreases n,
{
    if n <= 0 {
        0
    } else {
        spec_type_count(tiles, id, n - 1) + if tiles[n - 1] is Some
            && tiles[n - 1]->0.spec_tile_type_id() == id {
            1int
        } else {
            0int
        }
    }
}

/// There are at most as many tiles among the first `n` cells as cells, and
/// at most as many tiles of one type as tiles.
pub proof fn lemma_counts_bounded<Data: TypedData>(tiles: Seq<Option<Data>>, id: u64, n: int)
    requires
        0 <= n,
    ensures
        0 <= spec_type_count(tiles, id, n) <= spec_tile_count(tiles, n) <= n,
    decreases n,
{
    if n > 0 {
        lemma_counts_bounded(tiles, id, n - 1);
    }
}

impl FrequencyHints {
    /// Counts the tiles of the map: every tile adds one to the weight of its
    /// type.
    pub fn analyze<D: Dimensionality, Data: TypedData>(&mut self, map: &GridMap<D, Data>)
        requires
            old(self).wf(),
            old(self).spec_total() + map.tiles@.len() <= u32::MAX,
        ensures
            final(self).wf(),
            final(self).spec_total() == old(self).spec_total() + spec_tile_count(
                map.tiles@,
                map.tiles@.len() as int,
            ),
            final(self).spec_total() <= old(self).spec_total() + map.tiles@.len(),
            forall|id: u64|
                #[trigger] final(self).spec_contains(id) <==> (old(self).spec_contains(id)
                    || spec_type_count(map.tiles@, id, map.tiles@.len() as int) > 0),
            forall|id: u64|
                final(self).spec_contains(id) ==> #[trigger] final(self).spec_weight(id) == (if old(self).spec_contains(id) {
                    old(self).spec_weight(id) as int
                } else {
                    0int
                }) + spec_type_count(map.tiles@, id, map.tiles@.len() as int),
    {
        let n: usize = map.tiles.len();
        let mut i: usize = 0;
        proof {
            lemma_counts_bounded(map.tiles@, 0, n as int);
        }
        while i < n
            invariant
                self.wf(),
                0 <= i <= n,
                n == map.tiles@.len(),
                old(self).spec_total() + n <= u32::MAX,
                self.spec_total() == old(self).spec_total() + spec_tile_count(map.tiles@, i as int),
                forall|id: u64|
                    #[trigger] self.spec_contains(id) <==> (old(self).spec_contains(id)
                        || spec_type_count(map.tiles@, id, i as int) > 0),
                forall|id: u64|
                    self.spec_contains(id) ==> #[trigger] self.spec_weight(id) == (if old(self).spec_contains(id) {
                        old(self).spec_weight(id) as int
                    } else {
                        0int
                    }) + spec_type_count(map.tiles@, id, i as int),
            decreases n - i,
        {
            proof {
                lemma_counts_bounded(map.tiles@, 0, i as int);
            }
            match &map.tiles[i] {
                Some(data) => {
                    let ghost before = *self;
                    let counted: u64 = data.tile_type_id();
                    self.count_tile(counted);
                    proof {
                        assert forall|id: u64|
                            #[trigger] self.spec_contains(id) <==> (old(self).spec_contains(id)
                                || spec_type_count(map.tiles@, id, i as int + 1) > 0) by {
                            lemma_counts_bounded(map.tiles@, id, i as int);
                            if id != counted {
                                assert(self.spec_contains(id) == before.spec_contains(id));
                            }
                        }
                        assert forall|id: u64| self.spec_contains(id) implies #[trigger] self.spec_weight(
                            id,
                        ) == (if old(self).spec_contains(id) {
                            old(self).spec_weight(id) as int
                        } else {
                            0int
                        }) + spec_type_count(map.tiles@, id, i as int + 1) by {
                            lemma_counts_bounded(map.tiles@, id, i as int);
                            if id != counted {
                                assert(before.spec_contains(id));
                                assert(self.spec_weight(id) == before.spec_weight(id));
                            } else {
                                if before.spec_contains(id) {
                                    assert(self.spec_weight(id) == before.spec_weight(id) + 1);
                                } else {
                                    assert(!old(self).spec_contains(id));
                                    assert(spec_type_count(map.tiles@, id, i as int) == 0);
                                }
                            }
                        }
                    }
                },
                None => {},
            }
            i = i + 1;
        }
    }
}

/// Reads adjacency rules off sample maps.
pub trait AdjacencyAnalyzer<D: Dimensionality> {
    /// Whether the analyzer is in a state that its functions keep.
    spec fn spec_wf(&self) -> bool;

    /// The rules that the analyzer has arrived at.
    spec fn spec_adjacency(&self) -> AdjacencyRules<D>;

    /// Whether the analyzer has room left to take a map of the given number
    /// of cells into account.
    spec fn spec_has_room(&self, cells: nat) -> bool;

    /// The rules that the analyzer has arrived at.
    fn adjacency(&self) -> (r: &AdjacencyRules<D>)
        requires
            self.spec_wf(),
        ensures
            *r == self.spec_adjacency(),
            r.wf(),
    ;

    /// The tile types that the analyzer has met, each once, in the order in
    /// which it met them.
    fn tiles(&self) -> (r: &Vec<u64>)
        requires
            self.spec_wf(),
        ensures
            r@.no_duplicates(),
    ;

    /// Takes a sample map into account. Every pair of neighbours of the map
    /// is a rule afterwards: the tile type of the neighbour may stand beside
    /// the tile type of the tile, in the direction in which the neighbour
    /// lies.
    fn analyze<Data: TypedData>(&mut self, map: &GridMap<D, Data>)
        requires
            old(self).spec_wf(),
            old(self).spec_has_room(map.tiles@.len()),
            map.wf(),
        ensures
            final(self).spec_wf(),
            forall|a: u64, d: int, b: u64|
                0 <= d < D::Dir::spec_count() && #[trigger] spec_observed(map, a, d, b) ==> final(self).spec_adjacency().spec_allowed(a, d, b),
    ;
}

/// Puts `id` behind the tile types, unless they hold it already.
pub fn record_tile(tiles: &mut Vec<u64>, id: u64)
    requires
        old(tiles)@.no_duplicates(),
    ensures
        final(tiles)@.no_duplicates(),
        final(tiles)@ == if old(tiles)@.contains(id) {
            old(tiles)@
        } else {
            old(tiles)@.push(id)
        },
{
    let mut i: usize = 0;
    while i < tiles.len()
        invariant
            tiles@ == old(tiles)@,
            tiles@.no_duplicates(),
            0 <= i <= tiles@.len(),
            forall|k: int| 0 <= k < i ==> tiles@[k] != id,
        decreases tiles@.len() - i,
    {
        if tiles[i] == id {
            proof {
                assert(tiles@[i as int] == id);
                assert(tiles@.contains(id));
            }
            return ;
        }
        i = i + 1;
    }
    proof {
        if tiles@.contains(id) {
            let k = choose|k: int| 0 <= k < tiles@.len() && tiles@[k] == id;
            assert(false);
        }
    }
    tiles.push(id);
    proof {
        let before = old(tiles)@;
        assert forall|a: int, b: int| 0 <= a < tiles@.len() && 0 <= b < tiles@.len() && a != b implies tiles@[a]
            != tiles@[b] by {
            if a < before.len() && b < before.len() {
                assert(before[a] != before[b]);
            }
        }
    }
}

/// Analyzer that takes for a rule exactly what it has seen: a tile type may
/// stand beside another in a direction if some sample map shows it there.
pub struct AdjacencyIdentityAnalyzer<D: Dimensionality> {
    pub tiles: Vec<u64>,
    pub adjacency_rules: AdjacencyRules<D>,
}

impl<D: Dimensionality> AdjacencyIdentityAnalyzer<D> {
    /// The tile types are held once each, and the rules are well-formed.
    pub open spec fn wf(&self) -> bool {
        &&& self.tiles@.no_duplicates()
        &&& self.adjacency_rules.wf()
    }

    /// Creates an analyzer that has seen nothing.
    pub fn new() -> (r: Self)
        ensures
            r.wf(),
            r.tiles@.len() == 0,
            forall|a: u64, d: int, b: u64| !r.adjacency_rules.spec_allowed(a, d, b),
            r.adjacency_rules.spec_symmetric(),
    {
        Self { tiles: Vec::new(), adjacency_rules: AdjacencyRules::new() }
    }

    /// The rules that the analyzer has arrived at.
    pub fn adjacency(&self) -> (r: &AdjacencyRules<D>)
        ensures
            *r == self.adjacency_rules,
    {
        &self.adjacency_rules
    }

    /// Takes the tile at the position into account, if there is one: its
    /// type, and the type of each of its neighbours as a rule.
    pub fn analyze_tile_at_pos<Data: TypedData>(&mut self, map: &GridMap<D, Data>, pos: D::Pos)
        requires
            old(self).wf(),
            map.wf(),
            map.size.spec_valid(&pos),
        ensures
            final(self).wf(),
            final(self).tiles@ == if map.spec_at(pos) is Some && !old(self).tiles@.contains(
                map.spec_at(pos)->0.spec_tile_type_id(),
            ) {
                old(self).tiles@.push(map.spec_at(pos)->0.spec_tile_type_id())
            } else {
                old(self).tiles@
            },
            forall|a: u64, d: int, b: u64|
                0 <= d < D::Dir::spec_count() ==> (#[trigger] final(self).adjacency_rules.spec_allowed(
                    a,
                    d,
                    b,
                ) <==> (old(self).adjacency_rules.spec_allowed(a, d, b) || spec_observed_at(
                    map,
                    a,
                    d,
                    b,
                    map.size.spec_offset(&pos) as int,
                ))),
    {
        proof {
            map.size.lemma_offset_in_range(&pos);
            map.size.lemma_pos_from_offset_of_offset(&pos);
        }
        let ghost at = map.size.spec_offset(&pos) as int;
        match map.get_data_at_position(&pos) {
            Some(tile) => {
                let id: u64 = tile.tile_type_id();
                record_tile(&mut self.tiles, id);
                let ghost recorded = self.tiles@;
                let n: usize = D::Dir::count();
                let mut d: usize = 0;
                while d < n
                    invariant
                        self.adjacency_rules.wf(),
                        self.tiles@.no_duplicates(),
                        self.tiles@ == recorded,
                        map.wf(),
                        map.size.spec_valid(&pos),
                        at == map.size.spec_offset(&pos),
                        map.size.spec_pos_from_offset(at as nat) == pos,
                        0 <= at < map.tiles@.len(),
                        map.tiles@[at] is Some,
                        map.tiles@[at]->0.spec_tile_type_id() == id,
                        0 <= d <= n,
                        n == D::Dir::spec_count(),
                        forall|a: u64, e: int, b: u64|
                            0 <= e < D::Dir::spec_count() ==> (
                            #[trigger] self.adjacency_rules.spec_allowed(a, e, b) <==> (old(self).adjacency_rules.spec_allowed(a, e, b) || (e < d && spec_observed_at(
                                map,
                                a,
                                e,
                                b,
                                at,
                            )))),
                    decreases n - d,
                {
                    let direction: D::Dir = D::Dir::from_idx(d);
                    proof {
                        D::Dir::lemma_from_idx(d as nat);
                    }
                    match map.get_neighbour_at(&pos, &direction) {
                        Some(neighbour) => {
                            let adjacent: u64 = neighbour.data().tile_type_id();
                            self.adjacency_rules.add_adjacency_raw(id, adjacent, direction);
                        },
                        None => {},
                    }
                    d = d + 1;
                }
            },
            None => {},
        }
    }
}

impl<D: Dimensionality> AdjacencyAnalyzer<D> for AdjacencyIdentityAnalyzer<D> {
    open spec fn spec_wf(&self) -> bool {
        self.wf()
    }

    open spec fn spec_adjacency(&self) -> AdjacencyRules<D> {
        self.adjacency_rules
    }

    open spec fn spec_has_room(&self, cells: nat) -> bool {
        true
    }

    fn adjacency(&self) -> (r: &AdjacencyRules<D>) {
        &self.adjacency_rules
    }

    fn tiles(&self) -> (r: &Vec<u64>) {
        &self.tiles
    }

    /// Afterwards the rules are those of before and the pairs of neighbours
    /// of the map, and nothing else.
    fn analyze<Data: TypedData>(&mut self, map: &GridMap<D, Data>)
        ensures
            forall|a: u64, d: int, b: u64|
                0 <= d < D::Dir::spec_count() ==> (#[trigger] final(self).adjacency_rules.spec_allowed(
                    a,
                    d,
                    b,
                ) <==> (old(self).adjacency_rules.spec_allowed(a, d, b) || spec_observed(
                    map,
                    a,
                    d,
                    b,
                ))),
            old(self).adjacency_rules.spec_symmetric() ==> final(self).adjacency_rules.spec_symmetric(),
    {
        let n: usize = map.tiles.len();
        let mut i: usize = 0;
        while i < n
            invariant
                self.wf(),
                map.wf(),
                0 <= i <= n,
                n == map.tiles@.len(),
                forall|a: u64, d: int, b: u64|
                    0 <= d < D::Dir::spec_count() ==> (#[trigger] self.adjacency_rules.spec_allowed(
                        a,
                        d,
                        b,
                    ) <==> (old(self).adjacency_rules.spec_allowed(a, d, b) || spec_observed_in(
                        map,
                        a,
                        d,
                        b,
                        i as int,
                    ))),
            decreases n - i,
        {
            let position: D::Pos = map.size.pos_from_offset(i);
            proof {
                map.size.lemma_offset_of_pos_from_offset(i as nat);
            }
            let ghost before = *self;
            self.analyze_tile_at_pos(map, position);
            proof {
                assert forall|a: u64, d: int, b: u64| 0 <= d < D::Dir::spec_count() implies (
                #[trigger] self.adjacency_rules.spec_allowed(a, d, b) <==> (old(self).adjacency_rules.spec_allowed(a, d, b) || spec_observed_in(
                    map,
                    a,
                    d,
                    b,
                    i as int + 1,
                ))) by {
                    assert(before.adjacency_rules.spec_allowed(a, d, b) <==> (old(self).adjacency_rules.spec_allowed(a, d, b) || spec_observed_in(
                        map,
                        a,
                        d,
                        b,
                        i as int,
                    )));
                    if spec_observed_in(map, a, d, b, i as int) {
                        let at = choose|at: int|
                            0 <= at < i && #[trigger] spec_observed_at(map, a, d, b, at);
                        assert(spec_observed_at(map, a, d, b, at));
                    }
                    if spec_observed_at(map, a, d, b, i as int) {
                        assert(spec_observed_in(map, a, d, b, i as int + 1));
                    }
                    if spec_observed_in(map, a, d, b, i as int + 1) {
                        let at = choose|at: int|
                            0 <= at < i + 1 && #[trigger] spec_observed_at(map, a, d, b, at);
                        if at < i {
                            assert(spec_observed_in(map, a, d, b, i as int));
                        }
                    }
                }
            }
            i = i + 1;
        }
        proof {
            if old(self).adjacency_rules.spec_symmetric() {
                assert forall|a: u64, d: int, b: u64|
                    0 <= d < D::Dir::spec_count() && #[trigger] self.adjacency_rules.inner.spec_allowed(
                        a,
                        d,
                        b,
                    ) implies self.adjacency_rules.inner.spec_allowed(
                    b,
                    D::Dir::spec_from_idx(d as nat).spec_opposite().spec_idx() as int,
                    a,
                ) by {
                    let back = D::Dir::spec_from_idx(d as nat).spec_opposite().spec_idx() as int;
                    D::Dir::lemma_from_idx(d as nat);
                    D::Dir::spec_from_idx(d as nat).spec_opposite().lemma_idx();
                    assert(self.adjacency_rules.spec_allowed(a, d, b));
                    if old(self).adjacency_rules.spec_allowed(a, d, b) {
                        assert(old(self).adjacency_rules.inner.spec_allowed(a, d, b));
                        assert(old(self).adjacency_rules.spec_allowed(b, back, a));
                    } else {
                        assert(spec_observed(map, a, d, b));
                        lemma_observed_mirrored(map, a, d, b);
                    }
                    assert(self.adjacency_rules.spec_allowed(b, back, a));
                }
            }
        }
    }
}

/// What a map shows beside a tile in a direction, it shows the other way
/// round from the neighbour: the tile stands beside the neighbour in the
/// opposite direction.
pub proof fn lemma_observed_mirrored<D: Dimensionality, Data: TypedData>(
    map: &GridMap<D, Data>,
    a: u64,
    direction: int,
    b: u64,
)
    requires
        map.wf(),
        0 <= direction < D::Dir::spec_count(),
        spec_observed(map, a, direction, b),
    ensures
        spec_observed(
            map,
            b,
            D::Dir::spec_from_idx(direction as nat).spec_opposite().spec_idx() as int,
            a,
        ),
{
    let at = choose|at: int|
        0 <= at < map.tiles@.len() && #[trigger] spec_observed_at(map, a, direction, b, at);
    let dir = D::Dir::spec_from_idx(direction as nat);
    let back = dir.spec_opposite();
    let position = map.size.spec_pos_from_offset(at as nat);
    map.size.lemma_offset_of_pos_from_offset(at as nat);
    dir.lemma_march_step_back(&position, &map.size);
    let to = dir.spec_march_step(&position, &map.size)->0;
    map.size.lemma_offset_in_range(&to);
    map.size.lemma_pos_from_offset_of_offset(&to);
    back.lemma_idx();
    let other = map.size.spec_offset(&to) as int;
    assert(spec_observed_at(map, b, back.spec_idx() as int, a, other));
}

} // verus!
