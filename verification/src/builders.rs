//! Builders of tile data from the identifier of a tile type.

use vstd::prelude::*;
use crate::id::IdMap;
use crate::id::TypedData;

verus! {

/// The tile types that a builder was asked for and cannot build.
#[derive(Debug, Clone)]
pub struct TileBuilderError {
    pub tile_type_ids: Vec<u64>,
}

impl TileBuilderError {
    /// The error of the given tile types.
    pub fn new(tile_ids: Vec<u64>) -> (r: Self)
        ensures
            r.tile_type_ids == tile_ids,
    {
        Self { tile_type_ids: tile_ids }
    }

    /// The tile types that are missing from the builder.
    pub fn get_missing_tile_type_ids(&self) -> (r: &Vec<u64>)
        ensures
            *r == self.tile_type_ids,
    {
        &self.tile_type_ids
    }
}

/// Builds the data of a tile from the identifier of its type.
pub trait IdentTileBuilder<Data: TypedData> {
    /// Whether the builder is in a state that its functions keep.
    spec fn spec_wf(&self) -> bool;

    /// Whether the builder can build tiles of the type.
    spec fn spec_can_build(&self, tile_type_id: u64) -> bool;

    /// Whether `data` is what the builder makes of the type.
    spec fn spec_builds(&self, tile_type_id: u64, data: Data) -> bool;

    /// Builds the data of a tile of a type that the builder can build.
    fn build_tile_unchecked(&self, tile_type_id: u64) -> (r: Data)
        requires
            self.spec_wf(),
            self.spec_can_build(tile_type_id),
        ensures
            self.spec_builds(tile_type_id, r),
    ;

    /// Builds the data of a tile of the type, or fails with the type where
    /// the builder cannot build it.
    fn build_tile(&self, tile_type_id: u64) -> (r: Result<Data, TileBuilderError>)
        requires
            self.spec_wf(),
        ensures
            r is Ok <==> self.spec_can_build(tile_type_id),
            r is Ok ==> self.spec_builds(tile_type_id, r->Ok_0),
            r is Err ==> r->Err_0.tile_type_ids@ == seq![tile_type_id],
    ;

    /// Fails with those of the tile types that the builder cannot build, in
    /// their order, if there are any.
    fn check_missing_ids(&self, tile_type_ids: &[u64]) -> (r: Result<(), TileBuilderError>)
        requires
            self.spec_wf(),
        ensures
            r is Ok <==> forall|k: int|
                0 <= k < tile_type_ids@.len() ==> self.spec_can_build(#[trigger] tile_type_ids@[k]),
            r is Err ==> r->Err_0.tile_type_ids@ == tile_type_ids@.filter(
                |id: u64| !self.spec_can_build(id),
            ),
    ;
}

/// What is left of the tile types once those are taken out that the map
/// holds.
pub fn missing_from<V>(map: &IdMap<V>, tile_type_ids: &[u64]) -> (r: Vec<u64>)
    requires
        map.wf(),
    ensures
        r@ == tile_type_ids@.filter(|id: u64| !map.spec_contains(id)),
        r@.len() == 0 <==> forall|k: int|
            0 <= k < tile_type_ids@.len() ==> map.spec_contains(#[trigger] tile_type_ids@[k]),
{
    let mut out: Vec<u64> = Vec::new();
    let mut i: usize = 0;
    let ghost pred = |id: u64| !map.spec_contains(id);
    proof {
        assert(tile_type_ids@.take(0).filter(pred) =~= Seq::<u64>::empty()) by {
            reveal(Seq::filter);
        }
    }
    while i < tile_type_ids.len()
        invariant
            map.wf(),
            0 <= i <= tile_type_ids@.len(),
            pred == |id: u64| !map.spec_contains(id),
            out@ == tile_type_ids@.take(i as int).filter(pred),
            out@.len() == 0 <==> forall|k: int|
                0 <= k < i ==> map.spec_contains(#[trigger] tile_type_ids@[k]),
        decreases tile_type_ids@.len() - i,
    {
        proof {
            assert(tile_type_ids@.take(i as int + 1) == tile_type_ids@.take(i as int).push(
                tile_type_ids@[i as int],
            ));
            crate::position::lemma_filter_push(
                tile_type_ids@.take(i as int),
                tile_type_ids@[i as int],
                pred,
            );
        }
        if map.find(tile_type_ids[i]).is_none() {
            out.push(tile_type_ids[i]);
        }
        i = i + 1;
    }
    proof {
        assert(tile_type_ids@.take(tile_type_ids@.len() as int) == tile_type_ids@);
    }
    out
}

/// Whether `held` is a copy of the tile among the first `n` tiles from which
/// a builder takes the prototype of the type: the last tile of the type
/// where later tiles replace earlier ones, else the first.
pub open spec fn spec_copied_from<Data: TypedData + Clone>(
    tiles: Seq<Data>,
    id: u64,
    overwrite: bool,
    n: int,
    held: Data,
) -> bool {
    if overwrite {
        exists|k: int|
            0 <= k < n && (#[trigger] tiles[k]).spec_tile_type_id() == id && cloned::<Data>(
                tiles[k],
                held,
            ) && (forall|j: int| k < j < n ==> (#[trigger] tiles[j]).spec_tile_type_id() != id)
    } else {
        exists|k: int|
            0 <= k < n && (#[trigger] tiles[k]).spec_tile_type_id() == id && cloned::<Data>(
                tiles[k],
                held,
            ) && (forall|j: int| 0 <= j < k ==> (#[trigger] tiles[j]).spec_tile_type_id() != id)
    }
}

/// Builder that holds one tile as the prototype of each tile type, and
/// builds a tile as a copy of the prototype of its type.
pub struct IdentTileCloneBuilder<Data: TypedData + Clone> {
    pub tiles: IdMap<Data>,
}

impl<Data: TypedData + Clone> IdentTileCloneBuilder<Data> {
    /// Creates a builder without prototypes.
    pub fn new() -> (r: Self)
        ensures
            r.tiles.wf(),
            forall|id: u64| !r.tiles.spec_contains(id),
    {
        Self { tiles: IdMap::new() }
    }

    /// Takes the tiles as the prototypes of their types, in their order.
    /// A tile whose type has a prototype already replaces it if `overwrite`
    /// holds, and is left out if it does not.
    pub fn add_tiles(&mut self, tiles: &[Data], overwrite: bool)
        requires
            old(self).tiles.wf(),
        ensures
            final(self).tiles.wf(),
            forall|id: u64|
                #[trigger] final(self).tiles.spec_contains(id) <==> (old(self).tiles.spec_contains(id)
                    || exists|k: int|
                    0 <= k < tiles@.len() && (#[trigger] tiles@[k]).spec_tile_type_id() == id),
            forall|id: u64|
                old(self).tiles.spec_contains(id) && (!overwrite || forall|k: int|
                    0 <= k < tiles@.len() ==> (#[trigger] tiles@[k]).spec_tile_type_id() != id)
                    ==> #[trigger] final(self).tiles.spec_get(id) == old(self).tiles.spec_get(id),
            forall|id: u64|
                #[trigger] final(self).tiles.spec_contains(id) && (overwrite || !old(self).tiles.spec_contains(
                    id,
                )) && (exists|k: int|
                    0 <= k < tiles@.len() && (#[trigger] tiles@[k]).spec_tile_type_id() == id)
                    ==> spec_copied_from(tiles@, id, overwrite, tiles@.len() as int, final(self).tiles.spec_get(id)),
    {
        let mut i: usize = 0;
        while i < tiles.len()
            invariant
                self.tiles.wf(),
                0 <= i <= tiles@.len(),
                forall|id: u64|
                    #[trigger] self.tiles.spec_contains(id) <==> (old(self).tiles.spec_contains(id)
                        || exists|k: int|
                        0 <= k < i && (#[trigger] tiles@[k]).spec_tile_type_id() == id),
                forall|id: u64|
                    old(self).tiles.spec_contains(id) && (!overwrite || forall|k: int|
                        0 <= k < i ==> (#[trigger] tiles@[k]).spec_tile_type_id() != id)
                        ==> #[trigger] self.tiles.spec_get(id) == old(self).tiles.spec_get(id),
                forall|id: u64|
                    #[trigger] self.tiles.spec_contains(id) && (overwrite || !old(self).tiles.spec_contains(
                        id,
                    )) && (exists|k: int|
                        0 <= k < i && (#[trigger] tiles@[k]).spec_tile_type_id() == id)
                        ==> spec_copied_from(tiles@, id, overwrite, i as int, self.tiles.spec_get(id)),
            decreases tiles@.len() - i,
        {
            let id: u64 = tiles[i].tile_type_id();
            let ghost before = self.tiles;
            let known: bool = self.tiles.find(id).is_some();
            if overwrite || !known {
                let _ = self.tiles.insert(id, tiles[i].clone());
            }
            proof {
                assert forall|other: u64|
                    #[trigger] self.tiles.spec_contains(other) && (overwrite || !old(self).tiles.spec_contains(
                        other,
                    )) && (exists|k: int|
                        0 <= k < i + 1 && (#[trigger] tiles@[k]).spec_tile_type_id()
                            == other) implies spec_copied_from(
                    tiles@,
                    other,
                    overwrite,
                    i as int + 1,
                    self.tiles.spec_get(other),
                ) by {
                    if other == id {
                        if overwrite || !known {
                            assert(cloned::<Data>(tiles@[i as int], self.tiles.spec_get(other)));
                            if !overwrite {
                                assert forall|j: int| 0 <= j < i implies (
                                #[trigger] tiles@[j]).spec_tile_type_id() != other by {
                                    if tiles@[j].spec_tile_type_id() == other {
                                        assert(before.spec_contains(other));
                                    }
                                }
                            }
                        } else {
                            assert(before.spec_contains(other));
                            assert(exists|k: int|
                                0 <= k < i && (#[trigger] tiles@[k]).spec_tile_type_id() == other);
                            assert(spec_copied_from(
                                tiles@,
                                other,
                                overwrite,
                                i as int,
                                before.spec_get(other),
                            ));
                            let k = choose|k: int|
                                0 <= k < i && (#[trigger] tiles@[k]).spec_tile_type_id() == other
                                    && cloned::<Data>(tiles@[k], before.spec_get(other)) && (forall|
                                    j: int,
                                |
                                    0 <= j < k ==> (#[trigger] tiles@[j]).spec_tile_type_id() != other);
                            assert(0 <= k < i + 1);
                        }
                    } else {
                        let m = choose|m: int|
                            0 <= m < i + 1 && (#[trigger] tiles@[m]).spec_tile_type_id() == other;
                        assert(m < i);
                        assert(before.spec_contains(other));
                        assert(spec_copied_from(tiles@, other, overwrite, i as int, before.spec_get(other)));
                        assert(self.tiles.spec_get(other) == before.spec_get(other));
                        if overwrite {
                            let k = choose|k: int|
                                0 <= k < i && (#[trigger] tiles@[k]).spec_tile_type_id() == other
                                    && cloned::<Data>(tiles@[k], before.spec_get(other)) && (forall|
                                    j: int,
                                |
                                    k < j < i ==> (#[trigger] tiles@[j]).spec_tile_type_id() != other);
                            assert(0 <= k < i + 1);
                            assert forall|j: int| k < j < i + 1 implies (
                            #[trigger] tiles@[j]).spec_tile_type_id() != other by {}
                        } else {
                            let k = choose|k: int|
                                0 <= k < i && (#[trigger] tiles@[k]).spec_tile_type_id() == other
                                    && cloned::<Data>(tiles@[k], before.spec_get(other)) && (forall|
                                    j: int,
                                |
                                    0 <= j < k ==> (#[trigger] tiles@[j]).spec_tile_type_id() != other);
                            assert(0 <= k < i + 1);
                        }
                    }
                }
            }
            proof {
                assert forall|other: u64|
                    #[trigger] self.tiles.spec_contains(other) <==> (old(self).tiles.spec_contains(
                        other,
                    ) || exists|k: int|
                        0 <= k < i + 1 && (#[trigger] tiles@[k]).spec_tile_type_id() == other) by {
                    if other == id {
                        assert(tiles@[i as int].spec_tile_type_id() == other);
                    } else {
                        if exists|k: int|
                            0 <= k < i + 1 && (#[trigger] tiles@[k]).spec_tile_type_id() == other {
                            let k = choose|k: int|
                                0 <= k < i + 1 && (#[trigger] tiles@[k]).spec_tile_type_id() == other;
                            assert(k < i);
                        }
                        if before.spec_contains(other) && !old(self).tiles.spec_contains(other) {
                            let k = choose|k: int|
                                0 <= k < i && (#[trigger] tiles@[k]).spec_tile_type_id() == other;
                            assert(tiles@[k].spec_tile_type_id() == other);
                        }
                    }
                }
                assert forall|other: u64|
                    old(self).tiles.spec_contains(other) && (!overwrite || forall|k: int|
                        0 <= k < i + 1 ==> (#[trigger] tiles@[k]).spec_tile_type_id() != other) implies #[trigger] self.tiles.spec_get(
                    other,
                ) == old(self).tiles.spec_get(other) by {
                    if overwrite {
                        assert(tiles@[i as int].spec_tile_type_id() != other);
                        assert forall|k: int| 0 <= k < i implies (
                        #[trigger] tiles@[k]).spec_tile_type_id() != other by {
                            assert(0 <= k < i + 1);
                        }
                    }
                    assert(before.spec_get(other) == old(self).tiles.spec_get(other));
                    assert(before.spec_contains(other));
                }
            }
            i = i + 1;
        }
    }
}

impl<Data: TypedData + Clone> IdentTileBuilder<Data> for IdentTileCloneBuilder<Data> {
    open spec fn spec_wf(&self) -> bool {
        self.tiles.wf()
    }

    open spec fn spec_can_build(&self, tile_type_id: u64) -> bool {
        self.tiles.spec_contains(tile_type_id)
    }

    open spec fn spec_builds(&self, tile_type_id: u64, data: Data) -> bool {
        cloned::<Data>(self.tiles.spec_get(tile_type_id), data)
    }

    fn build_tile_unchecked(&self, tile_type_id: u64) -> (r: Data) {
        match self.tiles.get(tile_type_id) {
            Some(tile) => tile.clone(),
            None => vstd::pervasive::unreached(),
        }
    }

    fn build_tile(&self, tile_type_id: u64) -> (r: Result<Data, TileBuilderError>) {
        match self.tiles.get(tile_type_id) {
            Some(tile) => Ok(tile.clone()),
            None => {
                let mut missing: Vec<u64> = Vec::new();
                missing.push(tile_type_id);
                proof {
                    assert(missing@ =~= seq![tile_type_id]);
                }
                Err(TileBuilderError::new(missing))
            },
        }
    }

    fn check_missing_ids(&self, tile_type_ids: &[u64]) -> (r: Result<(), TileBuilderError>) {
        let missing: Vec<u64> = missing_from(&self.tiles, tile_type_ids);
        proof {
            crate::position::lemma_filter_ext(
                tile_type_ids@,
                |id: u64| !self.tiles.spec_contains(id),
                |id: u64| !self.spec_can_build(id),
            );
        }
        if missing.len() > 0 {
            Err(TileBuilderError::new(missing))
        } else {
            Ok(())
        }
    }
}

/// Builder that holds one constructor for each tile type, and builds a tile
/// by a call of the constructor of its type.
#[verifier::reject_recursive_types(Data)]
pub struct IdentTileFunBuilder<Data: TypedData, F: Fn() -> Data> {
    pub funs: IdMap<F>,
    pub data: core::marker::PhantomData<Data>,
}

impl<Data: TypedData, F: Fn() -> Data> IdentTileFunBuilder<Data, F> {
    /// The constructors are a well-formed map, and each may be called.
    pub open spec fn wf(&self) -> bool {
        &&& self.funs.wf()
        &&& forall|i: int| 0 <= i < self.funs.values@.len() ==> (#[trigger] self.funs.values@[i]).requires(())
    }

    /// Creates a builder without constructors.
    pub fn new() -> (r: Self)
        ensures
            r.wf(),
            forall|id: u64| !r.funs.spec_contains(id),
    {
        Self { funs: IdMap::new(), data: core::marker::PhantomData }
    }

    /// Takes the function as the constructor of the tile type, in place of
    /// the one that the type had.
    pub fn set_tile_constructor(&mut self, tile_id: u64, constructor: F)
        requires
            old(self).wf(),
            constructor.requires(()),
        ensures
            final(self).wf(),
            final(self).funs.spec_contains(tile_id),
            final(self).funs.spec_get(tile_id) == constructor,
            forall|other: u64|
                other != tile_id ==> (final(self).funs.spec_contains(other) == old(self).funs.spec_contains(other)),
            forall|other: u64|
                other != tile_id && old(self).funs.spec_contains(other) ==> final(self).funs.spec_get(
                    other,
                ) == old(self).funs.spec_get(other),
    {
        let ghost before = self.funs;
        let at: usize = self.funs.insert(tile_id, constructor);
        proof {
            assert forall|i: int| 0 <= i < self.funs.values@.len() implies (
            #[trigger] self.funs.values@[i]).requires(()) by {
                if before.spec_contains(tile_id) {
                    if i != at {
                        assert(self.funs.values@[i] == before.values@[i]);
                    }
                } else {
                    if i < at {
                        assert(self.funs.values@[i] == before.values@[i]);
                    } else if i > at {
                        assert(self.funs.values@[i] == before.values@[i - 1]);
                    }
                }
            }
        }
    }

    /// Forgets every constructor.
    pub fn clear(&mut self)
        ensures
            final(self).wf(),
            forall|id: u64| !final(self).funs.spec_contains(id),
    {
        self.funs.ids.clear();
        self.funs.values.clear();
    }
}

impl<Data: TypedData, F: Fn() -> Data> IdentTileBuilder<Data> for IdentTileFunBuilder<Data, F> {
    open spec fn spec_wf(&self) -> bool {
        self.wf()
    }

    open spec fn spec_can_build(&self, tile_type_id: u64) -> bool {
        self.funs.spec_contains(tile_type_id)
    }

    open spec fn spec_builds(&self, tile_type_id: u64, data: Data) -> bool {
        self.funs.spec_get(tile_type_id).ensures((), data)
    }

    fn build_tile_unchecked(&self, tile_type_id: u64) -> (r: Data) {
        match self.funs.find(tile_type_id) {
            Some(at) => (self.funs.values[at])(),
            None => vstd::pervasive::unreached(),
        }
    }

    fn build_tile(&self, tile_type_id: u64) -> (r: Result<Data, TileBuilderError>) {
        match self.funs.find(tile_type_id) {
            Some(at) => Ok((self.funs.values[at])()),
            None => {
                let mut missing: Vec<u64> = Vec::new();
                missing.push(tile_type_id);
                proof {
                    assert(missing@ =~= seq![tile_type_id]);
                }
                Err(TileBuilderError::new(missing))
            },
        }
    }

    fn check_missing_ids(&self, tile_type_ids: &[u64]) -> (r: Result<(), TileBuilderError>) {
        let missing: Vec<u64> = missing_from(&self.funs, tile_type_ids);
        proof {
            crate::position::lemma_filter_ext(
                tile_type_ids@,
                |id: u64| !self.funs.spec_contains(id),
                |id: u64| !self.spec_can_build(id),
            );
        }
        if missing.len() > 0 {
            Err(TileBuilderError::new(missing))
        } else {
            Ok(())
        }
    }
}

} // verus!
