//! The resolver: the loop that collapses a grid cell after cell.

use vstd::prelude::*;
use core::marker::PhantomData;
use rand::rngs::StdRng;
use crate::collapse::entropy::NOISE_RANGE;
use crate::collapse::error::CollapseError;
use crate::collapse::error::CollapseErrorKind;
use crate::collapse::grid::CollapsibleTileGrid;
use crate::collapse::grid::spec_only_collapsed;
use crate::collapse::purge::purge_incompatible_options;
use crate::collapse::purge::purge_options_for_neighbours;
use crate::collapse::purge::spec_compatible;
use crate::collapse::purge::spec_left_by_neighbour;
use crate::collapse::queue::entrophy::EntrophyQueue;
use crate::collapse::queue::position::PositionQueue;
use crate::collapse::queue::position::PositionQueueProcession;
use crate::collapse::queue::propagator::PropagateItem;
use crate::collapse::queue::propagator::Propagator;
use crate::collapse::queue::propagator::spec_all_queued;
use crate::collapse::queue::propagator::spec_cells_follow;
use crate::collapse::queue::propagator::spec_cells_wf;
use crate::collapse::queue::propagator::spec_items_ok;
use crate::collapse::queue::propagator::spec_same_collapsed;
use crate::collapse::random::sample_uniform_u8;
use crate::collapse::subscriber::Subscriber;
use crate::collapse::table::PerOptionData;
use crate::collapse::tile::CollapsibleTile;
use crate::dimension::Dimensionality;
use crate::direction::Direction;
use crate::map::GridMap;
use crate::position::GridPosition;
use crate::size::GridSize;

verus! {

/// Whether one of the positions has the offset `at`.
pub open spec fn spec_listed<D: Dimensionality>(size: &D::Size, positions: Seq<D::Pos>, at: int) -> bool {
    exists|k: int| 0 <= k < positions.len() && size.spec_offset(&#[trigger] positions[k]) == at
}

/// Number of the first `n` cells that lie at one of the positions and are
/// collapsed.
pub open spec fn spec_collapsed_listed<D: Dimensionality>(
    size: &D::Size,
    cells: Seq<Option<CollapsibleTile<D>>>,
    positions: Seq<D::Pos>,
    n: int,
) -> int
    decreases n,
{
    if n <= 0 {
        0
    } else {
        spec_collapsed_listed::<D>(size, cells, positions, n - 1) + if spec_listed::<D>(
            size,
            positions,
            n - 1,
        ) && cells[n - 1] is Some && cells[n - 1]->0.collapsed_option is Some {
            1int
        } else {
            0int
        }
    }
}

/// Two rows of cells in which the same cells are collapsed hold the same
/// number of collapsed cells at the positions; and where none of the cells
/// at the positions is collapsed, the number is zero.
pub proof fn lemma_collapsed_listed_same<D: Dimensionality>(
    size: &D::Size,
    a: Seq<Option<CollapsibleTile<D>>>,
    b: Seq<Option<CollapsibleTile<D>>>,
    positions: Seq<D::Pos>,
    n: int,
)
    requires
        0 <= n <= a.len(),
        a.len() == b.len(),
        forall|o: int|
            0 <= o < n && spec_listed::<D>(size, positions, o) ==> ((#[trigger] a[o]) is Some
                && a[o]->0.collapsed_option is Some) == (b[o] is Some && b[o]->0.collapsed_option is Some),
    ensures
        spec_collapsed_listed::<D>(size, a, positions, n) == spec_collapsed_listed::<D>(
            size,
            b,
            positions,
            n,
        ),
        0 <= spec_collapsed_listed::<D>(size, a, positions, n) <= n,
        (forall|o: int|
            0 <= o < n && spec_listed::<D>(size, positions, o) ==> !((#[trigger] a[o]) is Some
                && a[o]->0.collapsed_option is Some)) ==> spec_collapsed_listed::<D>(
            size,
            a,
            positions,
            n,
        ) == 0,
    decreases n,
{
    if n > 0 {
        lemma_collapsed_listed_same::<D>(size, a, b, positions, n - 1);
        assert(((#[trigger] a[n - 1]) is Some && a[n - 1]->0.collapsed_option is Some) == (b[n - 1] is Some
            && b[n - 1]->0.collapsed_option is Some) || !spec_listed::<D>(size, positions, n - 1));
    }
}

/// Where one cell at one of the positions becomes collapsed and the others
/// stay as they were, the number of collapsed cells at the positions grows
/// by one.
pub proof fn lemma_collapsed_listed_grows<D: Dimensionality>(
    size: &D::Size,
    a: Seq<Option<CollapsibleTile<D>>>,
    b: Seq<Option<CollapsibleTile<D>>>,
    positions: Seq<D::Pos>,
    at: int,
    n: int,
)
    requires
        0 <= n <= a.len(),
        a.len() == b.len(),
        0 <= at < a.len(),
        spec_listed::<D>(size, positions, at),
        !(a[at] is Some && a[at]->0.collapsed_option is Some),
        b[at] is Some && b[at]->0.collapsed_option is Some,
        forall|o: int|
            0 <= o < n && o != at ==> ((#[trigger] a[o]) is Some && a[o]->0.collapsed_option is Some) == (
            b[o] is Some && b[o]->0.collapsed_option is Some),
    ensures
        spec_collapsed_listed::<D>(size, b, positions, n) == spec_collapsed_listed::<D>(
            size,
            a,
            positions,
            n,
        ) + if at < n {
            1int
        } else {
            0int
        },
    decreases n,
{
    if n > 0 {
        lemma_collapsed_listed_grows::<D>(size, a, b, positions, at, n - 1);
        if n - 1 != at {
            assert(((#[trigger] a[n - 1]) is Some && a[n - 1]->0.collapsed_option is Some) == (b[n - 1] is Some
                && b[n - 1]->0.collapsed_option is Some));
        }
    }
}

/// Whether `states` are states through which a subscriber may go as it is
/// told of the collapses `events` one after the other: of the position of
/// each cell and of the tile type that it has become. Each event leads from
/// one state to the next.
pub open spec fn spec_told_through<D: Dimensionality, S: Subscriber<D>>(
    states: Seq<S>,
    events: Seq<(D::Pos, u64)>,
) -> bool {
    &&& states.len() == events.len() + 1
    &&& forall|k: int|
        0 <= k < events.len() ==> (#[trigger] states[k]).spec_collapsed(
            events[k].0,
            events[k].1,
            &states[k + 1],
        )
}

/// Whether `last` is a state in which a subscriber may be after it has been
/// told, in the state `first`, of the collapses `events` one after the
/// other.
pub open spec fn spec_told<D: Dimensionality, S: Subscriber<D>>(
    first: S,
    events: Seq<(D::Pos, u64)>,
    last: S,
) -> bool {
    exists|states: Seq<S>| #[trigger]
        spec_told_through::<D, S>(states, events) && states[0] == first && states[events.len() as int]
            == last
}

/// Whether the subscriber `after` is what a run with the collapses `events`
/// makes of the subscriber `before`: it has been told that a collapse
/// starts, and then of each of the collapses in their order. Without
/// subscriber there is none afterwards.
pub open spec fn spec_notified<D: Dimensionality, S: Subscriber<D>>(
    before: Option<S>,
    events: Seq<(D::Pos, u64)>,
    after: Option<S>,
) -> bool {
    match before {
        None => after is None,
        Some(subscriber) => after is Some && exists|started: S| #[trigger]
            subscriber.spec_started(&started) && spec_told::<D, S>(started, events, after->0),
    }
}

/// Whether `events` are the collapses of a run over the positions that has
/// led to the grid: one event for each collapsed cell at the positions and
/// no two for one cell, each with the position of its cell and the tile
/// type to which the cell is collapsed.
pub open spec fn spec_collapses<D: Dimensionality>(
    grid: &GridMap<D, CollapsibleTile<D>>,
    table: &PerOptionData<D>,
    positions: Seq<D::Pos>,
    events: Seq<(D::Pos, u64)>,
) -> bool {
    &&& events.len() == spec_collapsed_listed::<D>(
        &grid.size,
        grid.tiles@,
        positions,
        grid.tiles@.len() as int,
    )
    &&& forall|k: int|
        0 <= k < events.len() ==> {
            &&& positions.contains((#[trigger] events[k]).0)
            &&& grid.spec_at(events[k].0) is Some
            &&& grid.spec_at(events[k].0)->0.collapsed_option is Some
            &&& table.ids@[grid.spec_at(events[k].0)->0.collapsed_option->0 as int] == events[k].1
        }
    &&& forall|i: int, j: int|
        0 <= i < j < events.len() ==> (#[trigger] events[i]).0 != (#[trigger] events[j]).0
}

/// The collapses of a run stay its collapses while cells only lose options.
pub proof fn lemma_collapses_continue<D: Dimensionality>(
    after: &GridMap<D, CollapsibleTile<D>>,
    before: &GridMap<D, CollapsibleTile<D>>,
    table: &PerOptionData<D>,
    positions: Seq<D::Pos>,
    events: Seq<(D::Pos, u64)>,
)
    requires
        spec_collapses(before, table, positions, events),
        spec_cells_follow(after, before),
        spec_same_collapsed(after, before),
        before.wf(),
    ensures
        spec_collapses(after, table, positions, events),
{
    assert forall|o: int|
        0 <= o < before.tiles@.len() && spec_listed::<D>(&before.size, positions, o) implies ((
    #[trigger] after.tiles@[o]) is Some && after.tiles@[o]->0.collapsed_option is Some) == (before.tiles@[o] is Some
        && before.tiles@[o]->0.collapsed_option is Some) by {
        assert(after.tiles@[o] is Some <==> before.tiles@[o] is Some);
    }
    lemma_collapsed_listed_same::<D>(
        &before.size,
        after.tiles@,
        before.tiles@,
        positions,
        before.tiles@.len() as int,
    );
    assert forall|k: int| 0 <= k < events.len() implies {
        &&& positions.contains((#[trigger] events[k]).0)
        &&& after.spec_at(events[k].0) is Some
        &&& after.spec_at(events[k].0)->0.collapsed_option is Some
        &&& table.ids@[after.spec_at(events[k].0)->0.collapsed_option->0 as int] == events[k].1
    } by {
        let p = events[k].0;
        assert(before.spec_at(p) is Some);
        before.size.lemma_offset_in_range(&p);
        let o = before.size.spec_offset(&p) as int;
        assert(after.tiles@[o] is Some <==> before.tiles@[o] is Some);
        assert(after.tiles@[o]->0.spec_follows(&before.tiles@[o]->0));
    }
}

/// A cell at one of the positions that becomes collapsed adds one collapse
/// to the collapses of a run.
pub proof fn lemma_collapses_grow<D: Dimensionality>(
    after: &GridMap<D, CollapsibleTile<D>>,
    before: &GridMap<D, CollapsibleTile<D>>,
    table: &PerOptionData<D>,
    positions: Seq<D::Pos>,
    events: Seq<(D::Pos, u64)>,
    position: D::Pos,
    tile_type_id: u64,
)
    requires
        spec_collapses(before, table, positions, events),
        before.wf(),
        after.size == before.size,
        before.size.spec_valid(&position),
        positions.contains(position),
        before.tiles@[before.size.spec_offset(&position) as int] is Some,
        before.tiles@[before.size.spec_offset(&position) as int]->0.collapsed_option is None,
        after.tiles@.len() == before.tiles@.len(),
        forall|o: int|
            0 <= o < before.tiles@.len() && o != before.size.spec_offset(&position) ==> after.tiles@[o]
                == before.tiles@[o],
        after.tiles@[before.size.spec_offset(&position) as int] is Some,
        after.tiles@[before.size.spec_offset(&position) as int]->0.collapsed_option is Some,
        table.ids@[after.tiles@[before.size.spec_offset(&position) as int]->0.collapsed_option->0 as int]
            == tile_type_id,
    ensures
        spec_collapses(after, table, positions, events.push((position, tile_type_id))),
{
    let at = before.size.spec_offset(&position) as int;
    let grown = events.push((position, tile_type_id));
    before.size.lemma_offset_in_range(&position);
    before.size.lemma_pos_from_offset_of_offset(&position);
    assert(spec_listed::<D>(&before.size, positions, at)) by {
        let k = choose|k: int| 0 <= k < positions.len() && positions[k] == position;
        assert(before.size.spec_offset(&positions[k]) == at);
    }
    lemma_collapsed_listed_grows::<D>(
        &before.size,
        before.tiles@,
        after.tiles@,
        positions,
        at,
        before.tiles@.len() as int,
    );
    assert forall|k: int| 0 <= k < grown.len() implies {
        &&& positions.contains((#[trigger] grown[k]).0)
        &&& after.spec_at(grown[k].0) is Some
        &&& after.spec_at(grown[k].0)->0.collapsed_option is Some
        &&& table.ids@[after.spec_at(grown[k].0)->0.collapsed_option->0 as int] == grown[k].1
    } by {
        if k < events.len() {
            let p = events[k].0;
            assert(grown[k] == events[k]);
            assert(before.spec_at(p) is Some);
            assert(p != position);
            crate::collapse::grid::lemma_other_position(before, after, position, p);
        }
    }
    assert forall|i: int, j: int| 0 <= i < j < grown.len() implies (#[trigger] grown[i]).0 != (
    #[trigger] grown[j]).0 by {
        assert(grown[i] == events[i]);
        if j < events.len() {
            assert(grown[j] == events[j]);
        } else {
            assert(before.spec_at(events[i].0)->0.collapsed_option is Some);
        }
    }
}

/// A subscriber that has been told of some collapses and is then told of
/// one more has been told of all of them.
pub proof fn lemma_told_more<D: Dimensionality, S: Subscriber<D>>(
    first: S,
    events: Seq<(D::Pos, u64)>,
    mid: S,
    position: D::Pos,
    tile_type_id: u64,
    last: S,
)
    requires
        spec_told::<D, S>(first, events, mid),
        mid.spec_collapsed(position, tile_type_id, &last),
    ensures
        spec_told::<D, S>(first, events.push((position, tile_type_id)), last),
{
    let grown = events.push((position, tile_type_id));
    let states = choose|states: Seq<S>| #[trigger]
        spec_told_through::<D, S>(states, events) && states[0] == first && states[events.len() as int]
            == mid;
    let longer = states.push(last);
    assert forall|k: int| 0 <= k < grown.len() implies (#[trigger] longer[k]).spec_collapsed(
        grown[k].0,
        grown[k].1,
        &longer[k + 1],
    ) by {
        if k < events.len() {
            assert(longer[k] == states[k]);
            assert(longer[k + 1] == states[k + 1]);
            assert(grown[k] == events[k]);
        }
    }
    assert(spec_told_through::<D, S>(longer, grown));
    assert(longer[0] == first);
    assert(longer[grown.len() as int] == last);
}

/// Whether the cell at offset `at`, if it is collapsed, leaves to its
/// neighbour in the direction of index `direction`, if that is there and
/// not collapsed, only options that its own option permits beside it in
/// that direction.
pub open spec fn spec_pair_purged<D: Dimensionality>(
    grid: &GridMap<D, CollapsibleTile<D>>,
    table: &PerOptionData<D>,
    at: int,
    direction: int,
) -> bool {
    let to = D::Dir::spec_from_idx(direction as nat).spec_march_step(
        &grid.size.spec_pos_from_offset(at as nat),
        &grid.size,
    );
    grid.tiles@[at] is Some && grid.tiles@[at]->0.collapsed_option is Some && to is Some
        && grid.tiles@[grid.size.spec_offset(&to->0) as int] is Some
        && grid.tiles@[grid.size.spec_offset(&to->0) as int]->0.collapsed_option is None ==> forall|o: int|
        0 <= o < table.spec_option_count() && #[trigger] grid.tiles@[grid.size.spec_offset(
            &to->0,
        ) as int]->0.ways_to_be_option.spec_possible(o) ==> table.spec_allows(
            grid.tiles@[at]->0.collapsed_option->0 as int,
            direction,
            o,
        )
}

/// Whether every collapsed cell at one of the positions has taken from its
/// neighbours that are not collapsed the options that its own option does
/// not permit beside it.
pub open spec fn spec_neighbours_purged<D: Dimensionality>(
    grid: &GridMap<D, CollapsibleTile<D>>,
    table: &PerOptionData<D>,
    positions: Seq<D::Pos>,
) -> bool {
    forall|at: int, direction: int|
        0 <= at < grid.tiles@.len() && 0 <= direction < D::Dir::spec_count() && spec_listed::<D>(
            &grid.size,
            positions,
            at,
        ) ==> #[trigger] spec_pair_purged(grid, table, at, direction)
}

/// Neighbours that have been purged stay so while cells only lose options.
pub proof fn lemma_purged_continue<D: Dimensionality>(
    after: &GridMap<D, CollapsibleTile<D>>,
    before: &GridMap<D, CollapsibleTile<D>>,
    table: &PerOptionData<D>,
    positions: Seq<D::Pos>,
)
    requires
        spec_neighbours_purged(before, table, positions),
        spec_cells_follow(after, before),
        spec_same_collapsed(after, before),
        spec_cells_wf(after, table),
        spec_cells_wf(before, table),
        before.wf(),
    ensures
        spec_neighbours_purged(after, table, positions),
{
    D::Dir::spec_from_idx(0).lemma_idx();
    assert forall|at: int, direction: int|
        0 <= at < after.tiles@.len() && 0 <= direction < D::Dir::spec_count() && spec_listed::<D>(
            &after.size,
            positions,
            at,
        ) implies #[trigger] spec_pair_purged(after, table, at, direction) by {
        assert(spec_pair_purged(before, table, at, direction));
        let to = D::Dir::spec_from_idx(direction as nat).spec_march_step(
            &before.size.spec_pos_from_offset(at as nat),
            &before.size,
        );
        assert(after.tiles@[at] is Some <==> before.tiles@[at] is Some);
        if to is Some && after.tiles@[at] is Some && after.tiles@[at]->0.collapsed_option is Some {
            before.size.lemma_offset_of_pos_from_offset(at as nat);
            D::Dir::spec_from_idx(direction as nat).lemma_march_step_back(
                &before.size.spec_pos_from_offset(at as nat),
                &before.size,
            );
            before.size.lemma_offset_in_range(&to->0);
            let q = before.size.spec_offset(&to->0) as int;
            assert(after.tiles@[q] is Some <==> before.tiles@[q] is Some);
            if after.tiles@[q] is Some && after.tiles@[q]->0.collapsed_option is None {
                assert(after.tiles@[q]->0.spec_follows(&before.tiles@[q]->0));
                assert forall|o: int|
                    0 <= o < table.spec_option_count() && #[trigger] after.tiles@[q]->0.ways_to_be_option.spec_possible(
                        o,
                    ) implies table.spec_allows(
                    after.tiles@[at]->0.collapsed_option->0 as int,
                    direction,
                    o,
                ) by {
                    assert(after.tiles@[q]->0.wf(table));
                    assert(before.tiles@[q]->0.wf(table));
                    assert(after.tiles@[q]->0.ways_to_be_option.spec_not_above(
                        &before.tiles@[q]->0.ways_to_be_option,
                    ));
                    assert(after.tiles@[q]->0.ways_to_be_option.spec_ways(o, 0)
                        <= before.tiles@[q]->0.ways_to_be_option.spec_ways(o, 0));
                    assert(before.tiles@[q]->0.ways_to_be_option.spec_possible(o));
                }
            }
        }
    }
}

/// Whether neighbours are purged depends on the cells alone.
pub proof fn lemma_purged_same_cells<D: Dimensionality>(
    grid: &GridMap<D, CollapsibleTile<D>>,
    other: &GridMap<D, CollapsibleTile<D>>,
    table: &PerOptionData<D>,
    positions: Seq<D::Pos>,
)
    requires
        grid.size == other.size,
        grid.tiles@ == other.tiles@,
        spec_neighbours_purged(other, table, positions),
    ensures
        spec_neighbours_purged(grid, table, positions),
{
    assert forall|at: int, direction: int|
        0 <= at < grid.tiles@.len() && 0 <= direction < D::Dir::spec_count() && spec_listed::<D>(
            &grid.size,
            positions,
            at,
        ) implies #[trigger] spec_pair_purged(grid, table, at, direction) by {
        assert(spec_pair_purged(other, table, at, direction));
    }
}

/// Once a cell has been collapsed and has taken from its neighbours what
/// its option does not permit beside it, the neighbours of every collapsed
/// cell at the positions are purged again.
pub proof fn lemma_purged_after<D: Dimensionality>(
    last: &GridMap<D, CollapsibleTile<D>>,
    mid: &GridMap<D, CollapsibleTile<D>>,
    first: &GridMap<D, CollapsibleTile<D>>,
    table: &PerOptionData<D>,
    positions: Seq<D::Pos>,
    position: D::Pos,
    collapsed: usize,
)
    requires
        table.wf(),
        spec_neighbours_purged(first, table, positions),
        first.wf(),
        spec_cells_wf(mid, table),
        first.size == mid.size,
        first.tiles@.len() == mid.tiles@.len(),
        first.size.spec_valid(&position),
        forall|o: int|
            0 <= o < first.tiles@.len() && o != first.size.spec_offset(&position) ==> mid.tiles@[o]
                == first.tiles@[o],
        mid.tiles@[first.size.spec_offset(&position) as int] is Some,
        mid.tiles@[first.size.spec_offset(&position) as int]->0.collapsed_option == Some(collapsed),
        collapsed < table.spec_option_count(),
        spec_cells_follow(last, mid),
        spec_same_collapsed(last, mid),
        forall|at: int, o: int|
            0 <= at < mid.tiles@.len() && mid.tiles@[at] is Some && mid.tiles@[at]->0.collapsed_option is None
                && 0 <= o < table.spec_option_count() ==> (
            #[trigger] last.tiles@[at]->0.ways_to_be_option.spec_possible(o) <==> (mid.tiles@[at]->0.ways_to_be_option.spec_possible(
                o,
            ) && crate::collapse::purge::spec_kept_by_first(
                &mid.size,
                table,
                position,
                collapsed as int,
                at,
                o,
                D::Dir::spec_count() as int,
            ))),
    ensures
        spec_neighbours_purged(last, table, positions),
{
    let size = first.size;
    let here = size.spec_offset(&position) as int;
    size.lemma_offset_in_range(&position);
    size.lemma_pos_from_offset_of_offset(&position);
    assert forall|at: int, direction: int|
        0 <= at < last.tiles@.len() && 0 <= direction < D::Dir::spec_count() && spec_listed::<D>(
            &last.size,
            positions,
            at,
        ) implies #[trigger] spec_pair_purged(last, table, at, direction) by {
        let from = size.spec_pos_from_offset(at as nat);
        let to = D::Dir::spec_from_idx(direction as nat).spec_march_step(&from, &size);
        assert(last.tiles@[at] is Some <==> mid.tiles@[at] is Some);
        if to is Some && last.tiles@[at] is Some && last.tiles@[at]->0.collapsed_option is Some {
            size.lemma_offset_of_pos_from_offset(at as nat);
            D::Dir::spec_from_idx(direction as nat).lemma_march_step_back(&from, &size);
            size.lemma_offset_in_range(&to->0);
            let q = size.spec_offset(&to->0) as int;
            assert(last.tiles@[q] is Some <==> mid.tiles@[q] is Some);
            if last.tiles@[q] is Some && last.tiles@[q]->0.collapsed_option is None {
                assert(mid.tiles@[q]->0.collapsed_option is None);
                assert(q != here);
                assert forall|o: int|
                    0 <= o < table.spec_option_count() && #[trigger] last.tiles@[q]->0.ways_to_be_option.spec_possible(
                        o,
                    ) implies table.spec_allows(
                    last.tiles@[at]->0.collapsed_option->0 as int,
                    direction,
                    o,
                ) by {
                    assert(mid.tiles@[q]->0.ways_to_be_option.spec_possible(o));
                    assert(last.tiles@[at]->0.collapsed_option == mid.tiles@[at]->0.collapsed_option);
                    if at == here {
                        assert(from == position);
                        assert(last.tiles@[at]->0.collapsed_option->0 as int == collapsed);
                        assert(size.spec_offset(
                            &D::Dir::spec_from_idx(direction as nat).spec_march_step(&position, &size)->0,
                        ) == q);
                        assert(crate::collapse::purge::spec_kept_by_first(
                            &mid.size,
                            table,
                            position,
                            collapsed as int,
                            q,
                            o,
                            D::Dir::spec_count() as int,
                        ));
                        D::Dir::lemma_from_idx(direction as nat);
                        assert(D::Dir::spec_from_idx(direction as nat).spec_march_step(&position, &size) is Some);
                        assert(table.spec_allows(collapsed as int, direction, o));
                    } else {
                        assert(mid.tiles@[at] == first.tiles@[at]);
                        assert(mid.tiles@[q] == first.tiles@[q]);
                        assert(spec_pair_purged(first, table, at, direction));
                        assert(first.tiles@[q]->0.ways_to_be_option.spec_possible(o));
                        assert(table.spec_allows(
                            first.tiles@[at]->0.collapsed_option->0 as int,
                            direction,
                            o,
                        ));
                    }
                }
            }
        }
    }
}

/// Whether the collapsed cell beside the position in the direction of
/// index `direction`, if there is one and it stands at none of the
/// positions, is collapsed to another option than `option`.
pub open spec fn spec_seed_beside<D: Dimensionality>(
    grid: &GridMap<D, CollapsibleTile<D>>,
    positions: Seq<D::Pos>,
    position: D::Pos,
    direction: int,
    option: int,
) -> bool {
    let to = D::Dir::spec_from_idx(direction as nat).spec_march_step(&position, &grid.size);
    &&& to is Some
    &&& grid.spec_at(to->0) is Some
    &&& grid.spec_at(to->0)->0.collapsed_option is Some
    &&& grid.spec_at(to->0)->0.collapsed_option->0 != option
    &&& !spec_listed::<D>(&grid.size, positions, grid.size.spec_offset(&to->0) as int)
}

/// Whether the collapsed cells around the positions have nothing to take
/// from them: no option that such a cell is not collapsed to permits
/// anything on the side of the position beside it.
pub open spec fn spec_seeds_idle<D: Dimensionality>(
    grid: &GridMap<D, CollapsibleTile<D>>,
    table: &PerOptionData<D>,
    positions: Seq<D::Pos>,
) -> bool {
    forall|k: int, e: int, j: int|
        0 <= k < positions.len() && 0 <= e < D::Dir::spec_count() && 0 <= j < table.spec_option_count()
            && #[trigger] spec_seed_beside(grid, positions, positions[k], e, j) ==> table.spec_enabled(
            j,
            crate::collapse::support::spec_opposite_idx::<D>(e),
        ).len() == 0
}

/// Where the removals of the collapsed cells around the positions have
/// struck no empty cell although the fresh cells have no option, those
/// cells have nothing to take from the positions.
pub proof fn lemma_seeds_idle<D: Dimensionality>(
    first: &GridMap<D, CollapsibleTile<D>>,
    populated: &GridMap<D, CollapsibleTile<D>>,
    seeds: Seq<PropagateItem<D>>,
    table: &PerOptionData<D>,
    positions: Seq<D::Pos>,
)
    requires
        table.wf(),
        populated.wf(),
        first.size == populated.size,
        first.tiles@.len() == populated.tiles@.len(),
        spec_items_ok(seeds, &populated.size, table),
        forall|k: int| 0 <= k < positions.len() ==> populated.size.spec_valid(&#[trigger] positions[k]),
        forall|at: int|
            0 <= at < populated.tiles@.len() ==> if spec_listed::<D>(&populated.size, positions, at) {
                &&& (#[trigger] populated.tiles@[at]) is Some
                &&& populated.tiles@[at]->0.collapsed_option is None
                &&& populated.tiles@[at]->0.num_options == 0
            } else {
                populated.tiles@[at] == if first.tiles@[at] is Some && first.tiles@[at]->0.collapsed_option is Some {
                    first.tiles@[at]
                } else {
                    None
                }
            },
        forall|k: int, e: int|
            0 <= k < positions.len() && 0 <= e < D::Dir::spec_count() ==> #[trigger] spec_seeded_beside(
                populated,
                seeds,
                table,
                positions,
                positions[k],
                e,
            ),
        forall|k: int, e: int|
            0 <= k < seeds.len() && 0 <= e < D::Dir::spec_count()
                ==> !#[trigger] crate::collapse::queue::propagator::spec_strikes_empty(
                populated,
                table,
                &seeds[k],
                e,
            ),
    ensures
        spec_seeds_idle(first, table, positions),
{
    let size = populated.size;
    assert forall|k: int, e: int, j: int|
        0 <= k < positions.len() && 0 <= e < D::Dir::spec_count() && 0 <= j < table.spec_option_count()
            && #[trigger] spec_seed_beside(first, positions, positions[k], e, j) implies table.spec_enabled(
        j,
        crate::collapse::support::spec_opposite_idx::<D>(e),
    ).len() == 0 by {
        let p = positions[k];
        let dir = D::Dir::spec_from_idx(e as nat);
        let to = dir.spec_march_step(&p, &size)->0;
        dir.lemma_march_step_back(&p, &size);
        size.lemma_offset_in_range(&to);
        size.lemma_offset_in_range(&p);
        let at = size.spec_offset(&to) as int;
        assert(populated.tiles@[at] == first.tiles@[at]);
        assert(populated.spec_at(to) == first.spec_at(to));
        assert(spec_seeded_beside(populated, seeds, table, positions, p, e));
        assert(spec_seeded(populated, seeds, table, at));
        assert(crate::collapse::support::spec_pending(seeds, &size, at, j));
        let idx = choose|idx: int|
            0 <= idx < seeds.len() && size.spec_offset(&(#[trigger] seeds[idx]).position) == at
                && seeds[idx].to_remove == j;
        assert(size.spec_valid(&seeds[idx].position));
        crate::collapse::support::lemma_offsets_differ::<D>(&size, seeds[idx].position, to);
        assert(seeds[idx].position == to);
        assert(!crate::collapse::queue::propagator::spec_strikes_empty(populated, table, &seeds[idx], e));
        let here = size.spec_offset(&p) as int;
        assert(spec_listed::<D>(&size, positions, here));
        assert(populated.spec_at(p) == populated.tiles@[here]);
    }
}

/// A collapsed cell at one of the positions is counted.
pub proof fn lemma_collapsed_listed_one<D: Dimensionality>(
    size: &D::Size,
    cells: Seq<Option<CollapsibleTile<D>>>,
    positions: Seq<D::Pos>,
    at: int,
    n: int,
)
    requires
        0 <= at < n,
    ensures
        0 <= spec_collapsed_listed::<D>(size, cells, positions, n),
        spec_listed::<D>(size, positions, at) && cells[at] is Some && cells[at]->0.collapsed_option is Some
            ==> spec_collapsed_listed::<D>(size, cells, positions, n) >= 1,
    decreases n,
{
    if at < n - 1 {
        lemma_collapsed_listed_one::<D>(size, cells, positions, at, n - 1);
    } else {
        lemma_collapsed_listed_zero::<D>(size, cells, positions, n - 1);
    }
}

/// The number of collapsed cells at the positions is not negative.
pub proof fn lemma_collapsed_listed_zero<D: Dimensionality>(
    size: &D::Size,
    cells: Seq<Option<CollapsibleTile<D>>>,
    positions: Seq<D::Pos>,
    n: int,
)
    ensures
        0 <= spec_collapsed_listed::<D>(size, cells, positions, n),
    decreases n,
{
    if n > 0 {
        lemma_collapsed_listed_zero::<D>(size, cells, positions, n - 1);
    }
}

/// Whether the cell at the position is cut off from an option by one of
/// its neighbours: no option that the neighbour holds permits the option
/// beside it.
pub open spec fn spec_cell_cut_off<D: Dimensionality>(
    grid: &GridMap<D, CollapsibleTile<D>>,
    table: &PerOptionData<D>,
    position: D::Pos,
) -> bool {
    exists|direction: int, option: int|
        0 <= direction < D::Dir::spec_count() && 0 <= option < table.spec_option_count()
            && #[trigger] crate::collapse::support::spec_cut_off(
            grid,
            Seq::<PropagateItem<D>>::empty(),
            table,
            position,
            direction,
            option,
        )
}

/// A founded failure of a cell that had an option shows in the grid alone:
/// the cell is cut off from an option by what a neighbour holds.
pub proof fn lemma_refuted_plain<D: Dimensionality>(
    grid: &GridMap<D, CollapsibleTile<D>>,
    items: Seq<PropagateItem<D>>,
    table: &PerOptionData<D>,
    position: D::Pos,
    before: &GridMap<D, CollapsibleTile<D>>,
)
    requires
        crate::collapse::support::spec_refuted(grid, items, table, position, before),
    ensures
        before.spec_at(position)->0.num_options == 0 || spec_cell_cut_off(grid, table, position),
{
    if before.spec_at(position)->0.num_options != 0 {
        let (direction, option) = choose|direction: int, option: int|
            0 <= direction < D::Dir::spec_count() && 0 <= option < table.spec_option_count()
                && before.spec_at(position)->0.ways_to_be_option.spec_possible(option)
                && #[trigger] crate::collapse::support::spec_cut_off(
                grid,
                items,
                table,
                position,
                direction,
                option,
            );
        let to = D::Dir::spec_from_idx(direction as nat).spec_march_step(&position, &grid.size);
        crate::collapse::support::lemma_supporters_fewer(
            grid,
            items,
            crate::collapse::support::spec_no_flight(),
            grid,
            Seq::<PropagateItem<D>>::empty(),
            crate::collapse::support::spec_no_flight(),
            table,
            grid.size.spec_offset(&to->0) as int,
            direction,
            option,
            table.spec_option_count() as int,
        );
        assert(crate::collapse::support::spec_cut_off(
            grid,
            Seq::<PropagateItem<D>>::empty(),
            table,
            position,
            direction,
            option,
        ));
    }
}

/// Whether the collapses came in the order of the procession: each before
/// all that follow it.
pub open spec fn spec_in_order<D: Dimensionality, P: PositionQueueProcession<D>>(
    procession: &P,
    events: Seq<(D::Pos, u64)>,
) -> bool {
    forall|i: int, j: int|
        0 <= i < j < events.len() ==> procession.spec_before(
            (#[trigger] events[i]).0,
            (#[trigger] events[j]).0,
        )
}

/// Whether the table has an option, and lets every option stand beside
/// every option in every direction.
pub open spec fn spec_permissive<D: Dimensionality>(table: &PerOptionData<D>) -> bool {
    &&& table.spec_option_count() > 0
    &&& forall|i: int, d: int, j: int|
        0 <= i < table.spec_option_count() && 0 <= d < D::Dir::spec_count() && 0 <= j
            < table.spec_option_count() ==> #[trigger] table.spec_allows(i, d, j)
}

/// Under a table that lets everything stand beside everything, every
/// option is possible, and there is one at least.
pub proof fn lemma_permissive_count<D: Dimensionality>(table: &PerOptionData<D>)
    requires
        table.wf(),
        spec_permissive(table),
    ensures
        table.possible_options_count == table.spec_option_count(),
        table.possible_options_count > 0,
{
    assert forall|i: int| 0 <= i < table.spec_option_count() implies #[trigger] table.spec_has_all_neighbours(
        i,
    ) by {
        assert forall|d: int| 0 <= d < D::Dir::spec_count() implies (#[trigger] table.spec_enabled(
            i,
            d,
        )).len() > 0 by {
            assert(table.spec_allows(i, d, 0));
        }
    }
    table.lemma_count_of_possible(table.spec_option_count() as int);
}

/// A table that lets everything stand beside everything has a mirror image
/// for each of its permissions, and something may stand beside each of its
/// options in every direction.
pub proof fn lemma_permissive_in_order<D: Dimensionality>(table: &PerOptionData<D>)
    requires
        table.wf(),
        spec_permissive(table),
    ensures
        table.spec_symmetric(),
        crate::collapse::support::spec_all_possible(table),
{
    lemma_permissive_count(table);
    table.lemma_count_of_possible(table.spec_option_count() as int);
    assert forall|i: int, d: int, j: int|
        0 <= i < table.ids@.len() && 0 <= d < D::Dir::spec_count() && #[trigger] table.spec_allows(
            i,
            d,
            j,
        ) implies table.spec_allows(
        j,
        D::Dir::spec_from_idx(d as nat).spec_opposite().spec_idx() as int,
        i,
    ) by {
        D::Dir::spec_from_idx(d as nat).spec_opposite().lemma_idx();
        let k = choose|k: int|
            0 <= k < table.spec_enabled(i, d).len() && #[trigger] table.spec_enabled(i, d)[k] == j;
        assert(0 <= j < table.spec_option_count());
    }
}

/// Two cells that can become the same options have the same number of
/// options.
pub proof fn lemma_same_options<D: Dimensionality>(
    a: &CollapsibleTile<D>,
    b: &CollapsibleTile<D>,
    table: &PerOptionData<D>,
)
    requires
        a.wf(table),
        b.wf(table),
        a.collapsed_option is None,
        b.collapsed_option is None,
        forall|o: int|
            0 <= o < table.spec_option_count() ==> #[trigger] a.ways_to_be_option.spec_possible(o)
                == b.ways_to_be_option.spec_possible(o),
    ensures
        a.num_options == b.num_options,
        a.weight == b.weight,
{
    assert forall|i: int| 0 <= i < table.spec_option_count() implies ((
    #[trigger] a.ways_to_be_option.table@[i])@[0] != 0) == (b.ways_to_be_option.table@[i]@[0] != 0) by {
        assert(a.ways_to_be_option.spec_possible(i) == b.ways_to_be_option.spec_possible(i));
    }
    crate::collapse::option::lemma_sums_same(
        a.ways_to_be_option.table@,
        b.ways_to_be_option.table@,
        table.opt_with_weight@,
        table.spec_option_count() as int,
    );
}

/// Of two cells, the one that can become no option that the other cannot
/// has no more options than the other.
pub proof fn lemma_fewer_options<D: Dimensionality>(
    a: &CollapsibleTile<D>,
    b: &CollapsibleTile<D>,
    table: &PerOptionData<D>,
)
    requires
        a.wf(table),
        b.wf(table),
        a.collapsed_option is None,
        b.collapsed_option is None,
        a.spec_follows(b),
    ensures
        a.num_options <= b.num_options,
{
    D::Dir::spec_from_idx(0).lemma_idx();
    assert forall|i: int| 0 <= i < table.spec_option_count() && (#[trigger] a.ways_to_be_option.table@[i])@[0]
        != 0 implies b.ways_to_be_option.table@[i]@[0] != 0 by {
        assert(a.ways_to_be_option.spec_ways(i, 0) <= b.ways_to_be_option.spec_ways(i, 0));
    }
    lemma_count_fewer(
        a.ways_to_be_option.table@,
        b.ways_to_be_option.table@,
        table.spec_option_count() as int,
    );
}

/// Where every row that is not zero in one table is not zero in the other,
/// the one has no more rows that are not zero.
pub proof fn lemma_count_fewer(a: Seq<Vec<usize>>, b: Seq<Vec<usize>>, n: int)
    requires
        forall|i: int| 0 <= i < n && (#[trigger] a[i])@[0] != 0 ==> b[i]@[0] != 0,
    ensures
        crate::collapse::option::spec_count_possible(a, n) <= crate::collapse::option::spec_count_possible(
            b,
            n,
        ),
    decreases n,
{
    if n > 0 {
        lemma_count_fewer(a, b, n - 1);
        if a[n - 1]@[0] != 0 {
            assert(b[n - 1]@[0] != 0);
        }
    }
}

/// While cells only lose options, no cell that is not collapsed gains one.
pub proof fn lemma_fewer_options_all<D: Dimensionality>(
    after: &GridMap<D, CollapsibleTile<D>>,
    before: &GridMap<D, CollapsibleTile<D>>,
    table: &PerOptionData<D>,
)
    requires
        spec_cells_follow(after, before),
        spec_same_collapsed(after, before),
        spec_cells_wf(after, table),
        spec_cells_wf(before, table),
    ensures
        forall|o: int|
            0 <= o < after.tiles@.len() && (#[trigger] after.tiles@[o]) is Some && after.tiles@[o]->0.collapsed_option is None
                ==> after.tiles@[o]->0.num_options <= before.tiles@[o]->0.num_options,
{
    assert forall|o: int|
        0 <= o < after.tiles@.len() && (#[trigger] after.tiles@[o]) is Some && after.tiles@[o]->0.collapsed_option is None implies after.tiles@[o]->0.num_options
        <= before.tiles@[o]->0.num_options by {
        assert(before.tiles@[o] is Some);
        assert(after.tiles@[o]->0.spec_follows(&before.tiles@[o]->0));
        lemma_fewer_options(&after.tiles@[o]->0, &before.tiles@[o]->0, table);
    }
}

/// A cell without options cannot become any option.
pub proof fn lemma_no_option<D: Dimensionality>(cell: &CollapsibleTile<D>, table: &PerOptionData<D>)
    requires
        table.wf(),
        cell.wf(table),
        cell.collapsed_option is None,
        cell.num_options == 0,
    ensures
        forall|o: int|
            0 <= o < table.spec_option_count() ==> !#[trigger] cell.ways_to_be_option.spec_possible(o),
{
    assert forall|o: int| 0 <= o < table.spec_option_count() implies !#[trigger] cell.ways_to_be_option.spec_possible(
        o,
    ) by {
        lemma_count_reaches(cell.ways_to_be_option.table@, table.spec_option_count() as int, o);
    }
}

/// Each of the first `n` rows that is not zero is counted.
pub proof fn lemma_count_reaches(rows: Seq<Vec<usize>>, n: int, o: int)
    requires
        0 <= o < n,
    ensures
        0 <= crate::collapse::option::spec_count_possible(rows, n),
        rows[o]@[0] != 0 ==> crate::collapse::option::spec_count_possible(rows, n) > 0,
    decreases n,
{
    if n - 1 > o {
        lemma_count_reaches(rows, n - 1, o);
    } else {
        lemma_count_nonnegative(rows, n - 1);
    }
}

/// There are at most as many rows that are not zero as rows.
pub proof fn lemma_count_at_most(rows: Seq<Vec<usize>>, n: int)
    requires
        0 <= n,
    ensures
        crate::collapse::option::spec_count_possible(rows, n) <= n,
    decreases n,
{
    if n > 0 {
        lemma_count_at_most(rows, n - 1);
    }
}

/// The number of rows that are not zero is not negative.
pub proof fn lemma_count_nonnegative(rows: Seq<Vec<usize>>, n: int)
    ensures
        0 <= crate::collapse::option::spec_count_possible(rows, n),
    decreases n,
{
    if n > 0 {
        lemma_count_nonnegative(rows, n - 1);
    }
}

/// Under a table that lets everything stand beside everything, every
/// neighbour leaves every option to a cell, as long as each open cell has
/// lost no option.
pub proof fn lemma_all_compatible<D: Dimensionality>(
    grid: &GridMap<D, CollapsibleTile<D>>,
    table: &PerOptionData<D>,
    position: D::Pos,
)
    requires
        table.wf(),
        spec_permissive(table),
        grid.wf(),
        spec_cells_wf(grid, table),
        forall|o: int|
            0 <= o < grid.tiles@.len() && (#[trigger] grid.tiles@[o]) is Some && grid.tiles@[o]->0.collapsed_option is None
                ==> grid.tiles@[o]->0.num_options == table.possible_options_count,
    ensures
        forall|o: int|
            0 <= o < table.spec_option_count() ==> #[trigger] spec_compatible(grid, table, position, o),
{
    assert forall|o: int| 0 <= o < table.spec_option_count() implies #[trigger] spec_compatible(
        grid,
        table,
        position,
        o,
    ) by {
        assert forall|d: int| 0 <= d < D::Dir::spec_count() implies crate::collapse::purge::spec_left_by_neighbour(
            grid,
            table,
            position,
            #[trigger] D::Dir::spec_from_idx(d as nat),
            o,
        ) by {
            let direction = D::Dir::spec_from_idx(d as nat);
            D::Dir::lemma_from_idx(d as nat);
            direction.spec_opposite().lemma_idx();
            match direction.spec_march_step(&position, &grid.size) {
                Some(to) => {
                    if grid.size.spec_valid(&to) {
                        grid.size.lemma_offset_in_range(&to);
                        let at = grid.size.spec_offset(&to) as int;
                        if grid.tiles@[at] is Some {
                            let cell = grid.tiles@[at]->0;
                            assert(cell.wf(table));
                            if cell.collapsed_option is Some {
                                assert(table.spec_allows(
                                    cell.collapsed_option->0 as int,
                                    direction.spec_opposite().spec_idx() as int,
                                    o,
                                ));
                            }
                        }
                    }
                },
                None => {},
            }
        }
    }
}

/// What the neighbours leave to a cell depends on the cells alone.
pub proof fn lemma_compatible_same_cells<D: Dimensionality>(
    grid: &GridMap<D, CollapsibleTile<D>>,
    other: &GridMap<D, CollapsibleTile<D>>,
    table: &PerOptionData<D>,
    position: D::Pos,
    option_idx: int,
)
    requires
        grid.size == other.size,
        grid.tiles@ == other.tiles@,
    ensures
        spec_compatible(grid, table, position, option_idx) == spec_compatible(
            other,
            table,
            position,
            option_idx,
        ),
{
    assert forall|d: int| 0 <= d < D::Dir::spec_count() implies crate::collapse::purge::spec_left_by_neighbour(
        grid,
        table,
        position,
        #[trigger] D::Dir::spec_from_idx(d as nat),
        option_idx,
    ) == crate::collapse::purge::spec_left_by_neighbour(
        other,
        table,
        position,
        D::Dir::spec_from_idx(d as nat),
        option_idx,
    ) by {
        let direction = D::Dir::spec_from_idx(d as nat);
        assert(grid.spec_neighbour(position, direction) == other.spec_neighbour(position, direction));
    }
}

/// A subscriber that has been told of the start of a collapse and then of
/// some collapses has been notified of the run.
pub proof fn lemma_notified<D: Dimensionality, S: Subscriber<D>>(
    before: Option<S>,
    started: S,
    events: Seq<(D::Pos, u64)>,
    after: Option<S>,
)
    requires
        before is Some <==> after is Some,
        before is Some ==> before->0.spec_started(&started) && spec_told::<D, S>(
            started,
            events,
            after->0,
        ),
    ensures
        spec_notified::<D, S>(before, events, after),
{
}

/// A subscriber that has been told of nothing is as it was.
pub proof fn lemma_told_nothing<D: Dimensionality, S: Subscriber<D>>(first: S)
    ensures
        spec_told::<D, S>(first, Seq::<(D::Pos, u64)>::empty(), first),
{
    let states = seq![first];
    assert(spec_told_through::<D, S>(states, Seq::<(D::Pos, u64)>::empty()));
    assert(states[0] == first);
}

/// Whether the cells are what a run of the resolver over `positions` makes
/// of the cells `before`, as far as that does not depend on chance: a cell
/// at one of the positions is there, whatever the grid held at its place;
/// every other cell that was collapsed is as it was, and every other place
/// is empty.
pub open spec fn spec_run_from<D: Dimensionality>(
    size: &D::Size,
    after: Seq<Option<CollapsibleTile<D>>>,
    before: Seq<Option<CollapsibleTile<D>>>,
    positions: Seq<D::Pos>,
) -> bool {
    &&& after.len() == before.len()
    &&& forall|at: int|
        0 <= at < before.len() ==> if spec_listed::<D>(size, positions, at) {
            (#[trigger] after[at]) is Some
        } else {
            after[at] == if before[at] is Some && before[at]->0.collapsed_option is Some {
                before[at]
            } else {
                None
            }
        }
}

/// Whether every cell at one of the positions is collapsed.
pub open spec fn spec_all_collapsed<D: Dimensionality>(
    size: &D::Size,
    cells: Seq<Option<CollapsibleTile<D>>>,
    positions: Seq<D::Pos>,
) -> bool {
    forall|at: int|
        0 <= at < cells.len() && spec_listed::<D>(size, positions, at) ==> (#[trigger] cells[at]) is Some
            && cells[at]->0.collapsed_option is Some
}

/// Whether the cell at `position` and its neighbour in the direction of
/// index `direction` agree: where both are collapsed, the option of the
/// cell permits the option of the neighbour beside it in that direction.
pub open spec fn spec_pair_consistent<D: Dimensionality>(
    grid: &GridMap<D, CollapsibleTile<D>>,
    table: &PerOptionData<D>,
    position: D::Pos,
    direction: int,
) -> bool {
    let to = D::Dir::spec_from_idx(direction as nat).spec_march_step(&position, &grid.size);
    to is Some && grid.spec_at(position) is Some && grid.spec_at(position)->0.collapsed_option is Some
        && grid.spec_at(to->0) is Some && grid.spec_at(to->0)->0.collapsed_option is Some
        ==> table.spec_allows(
        grid.spec_at(position)->0.collapsed_option->0 as int,
        direction,
        grid.spec_at(to->0)->0.collapsed_option->0 as int,
    )
}

/// Whether every collapsed cell agrees with each of its collapsed
/// neighbours, as far as one of the two stands at one of the positions.
pub open spec fn spec_consistent<D: Dimensionality>(
    grid: &GridMap<D, CollapsibleTile<D>>,
    table: &PerOptionData<D>,
    positions: Seq<D::Pos>,
) -> bool {
    forall|p: D::Pos, d: int|
        grid.size.spec_valid(&p) && 0 <= d < D::Dir::spec_count() && (positions.contains(p) || (
        D::Dir::spec_from_idx(d as nat).spec_march_step(&p, &grid.size) is Some && positions.contains(
            D::Dir::spec_from_idx(d as nat).spec_march_step(&p, &grid.size)->0,
        ))) ==> #[trigger] spec_pair_consistent(grid, table, p, d)
}

/// The resolver of the collapse.
///
/// It collapses the cells of a grid at given positions one after the other,
/// in the order of a queue, and tells its subscriber of each cell that it
/// has collapsed.
pub struct Resolver<D: Dimensionality, S: Subscriber<D>> {
    pub subscriber: Option<S>,
    pub dimensionality: PhantomData<D>,
}

impl<D: Dimensionality, S: Subscriber<D>> Default for Resolver<D, S> {
    /// A resolver without subscriber.
    fn default() -> (r: Self)
        ensures
            r.subscriber is None,
    {
        Self { subscriber: None, dimensionality: PhantomData }
    }
}

impl<D: Dimensionality, S: Subscriber<D>> Resolver<D, S> {
    /// Creates a resolver without subscriber.
    pub fn new() -> (r: Self)
        ensures
            r.subscriber is None,
    {
        Self { subscriber: None, dimensionality: PhantomData }
    }

    /// Attaches the subscriber to the resolver, in place of the one that was
    /// attached.
    pub fn with_subscriber(self, subscriber: S) -> (r: Self)
        ensures
            r.subscriber == Some(subscriber),
    {
        Self { subscriber: Some(subscriber), dimensionality: PhantomData }
    }

    /// Takes the subscriber off the resolver.
    pub fn retrieve_subscriber(&mut self) -> (r: Option<S>)
        ensures
            r == old(self).subscriber,
            final(self).subscriber is None,
    {
        self.subscriber.take()
    }

    /// Tells the subscriber, if there is one, that a collapse starts: the
    /// subscriber is afterwards as it says that the start of a collapse
    /// leaves it. Without subscriber nothing happens.
    fn notify_start(&mut self)
        ensures
            final(self).subscriber is Some <==> old(self).subscriber is Some,
            old(self).subscriber is Some ==> old(self).subscriber->0.spec_started(
                &final(self).subscriber->0,
            ),
    {
        match &mut self.subscriber {
            Some(subscriber) => {
                subscriber.on_generation_start();
            },
            None => {},
        }
    }

    /// Tells the subscriber, if there is one, that the cell at the position
    /// has become a tile of the type: the subscriber is afterwards as it
    /// says that this leaves it. Without subscriber nothing happens.
    fn notify_collapse(&mut self, position: &D::Pos, tile_type_id: u64)
        ensures
            final(self).subscriber is Some <==> old(self).subscriber is Some,
            old(self).subscriber is Some ==> old(self).subscriber->0.spec_collapsed(
                *position,
                tile_type_id,
                &final(self).subscriber->0,
            ),
    {
        match &mut self.subscriber {
            Some(subscriber) => {
                subscriber.on_collapse(position, tile_type_id);
            },
            None => {},
        }
    }

    /// The removals with which the collapsed cells around the positions
    /// make themselves felt: for every collapsed cell that is the neighbour
    /// of one of the positions and does not stand at one of them itself, one
    /// item for each option other than the option of the cell.
    pub fn get_initial_propagate_items(
        grid: &GridMap<D, CollapsibleTile<D>>,
        option_data: &PerOptionData<D>,
        to_collapse: &[D::Pos],
    ) -> (r: Vec<PropagateItem<D>>)
        requires
            option_data.wf(),
            spec_cells_wf(grid, option_data),
            forall|k: int| 0 <= k < to_collapse@.len() ==> grid.size.spec_valid(&#[trigger] to_collapse@[k]),
        ensures
            spec_items_ok(r@, &grid.size, option_data),
            forall|k: int|
                0 <= k < r@.len() ==> {
                    let cell = grid.spec_at((#[trigger] r@[k]).position);
                    &&& cell is Some
                    &&& cell->0.collapsed_option is Some
                    &&& cell->0.collapsed_option->0 != r@[k].to_remove
                    &&& !spec_listed::<D>(
                        &grid.size,
                        to_collapse@,
                        grid.size.spec_offset(&r@[k].position) as int,
                    )
                },
            spec_no_item_twice(&grid.size, r@),
            forall|k: int, e: int|
                0 <= k < to_collapse@.len() && 0 <= e < D::Dir::spec_count() ==> #[trigger] spec_seeded_beside(
                    grid,
                    r@,
                    option_data,
                    to_collapse@,
                    to_collapse@[k],
                    e,
                ),
    {
        let cells: usize = grid.tiles.len();
        let count: usize = option_data.option_count();
        let n: usize = D::Dir::count();
        let mut skip: Vec<bool> = Vec::new();
        let mut c: usize = 0;
        while c < cells
            invariant
                0 <= c <= cells,
                skip@.len() == c,
                forall|at: int| 0 <= at < c ==> !skip@[at],
            decreases cells - c,
        {
            skip.push(false);
            c = c + 1;
        }
        let mut m: usize = 0;
        while m < to_collapse.len()
            invariant
                grid.wf(),
                cells == grid.tiles@.len(),
                0 <= m <= to_collapse@.len(),
                skip@.len() == cells,
                forall|k: int|
                    0 <= k < to_collapse@.len() ==> grid.size.spec_valid(&#[trigger] to_collapse@[k]),
                forall|at: int|
                    0 <= at < cells ==> (#[trigger] skip@[at] <==> spec_listed::<D>(
                        &grid.size,
                        to_collapse@.take(m as int),
                        at,
                    )),
            decreases to_collapse@.len() - m,
        {
            let off: usize = grid.offset_of(&to_collapse[m]);
            let ghost before = skip@;
            skip[off] = true;
            proof {
                let s0 = to_collapse@.take(m as int);
                let s1 = to_collapse@.take(m as int + 1);
                assert(s1 == s0.push(to_collapse@[m as int]));
                assert forall|at: int| 0 <= at < cells implies (#[trigger] skip@[at] <==> spec_listed::<D>(
                    &grid.size,
                    s1,
                    at,
                )) by {
                    if spec_listed::<D>(&grid.size, s0, at) {
                        let k = choose|k: int|
                            0 <= k < s0.len() && grid.size.spec_offset(&#[trigger] s0[k]) == at;
                        assert(grid.size.spec_offset(&s1[k]) == at);
                    }
                    if at == off {
                        assert(grid.size.spec_offset(&s1[m as int]) == at);
                    }
                    if spec_listed::<D>(&grid.size, s1, at) {
                        let k = choose|k: int|
                            0 <= k < s1.len() && grid.size.spec_offset(&#[trigger] s1[k]) == at;
                        if k < m {
                            assert(grid.size.spec_offset(&s0[k]) == at);
                        }
                    }
                }
            }
            m = m + 1;
        }
        proof {
            assert(to_collapse@.take(to_collapse@.len() as int) == to_collapse@);
        }
        let mut out: Vec<PropagateItem<D>> = Vec::new();
        let mut i: usize = 0;
        while i < to_collapse.len()
            invariant
                option_data.wf(),
                spec_cells_wf(grid, option_data),
                cells == grid.tiles@.len(),
                count == option_data.spec_option_count(),
                n == D::Dir::spec_count(),
                0 <= i <= to_collapse@.len(),
                skip@.len() == cells,
                forall|k: int|
                    0 <= k < to_collapse@.len() ==> grid.size.spec_valid(&#[trigger] to_collapse@[k]),
                spec_items_marked(grid, out@, option_data, to_collapse@, skip@, -1),
                forall|k: int, e: int|
                    0 <= k < i && 0 <= e < D::Dir::spec_count() ==> #[trigger] spec_marked_beside(
                        grid,
                        to_collapse@,
                        skip@,
                        to_collapse@[k],
                        e,
                    ),
            decreases to_collapse@.len() - i,
        {
            let mut d: usize = 0;
            while d < n
                invariant
                    option_data.wf(),
                    spec_cells_wf(grid, option_data),
                    cells == grid.tiles@.len(),
                    count == option_data.spec_option_count(),
                    n == D::Dir::spec_count(),
                    0 <= i < to_collapse@.len(),
                    0 <= d <= n,
                    skip@.len() == cells,
                    forall|k: int|
                        0 <= k < to_collapse@.len() ==> grid.size.spec_valid(
                            &#[trigger] to_collapse@[k],
                        ),
                    spec_items_marked(grid, out@, option_data, to_collapse@, skip@, -1),
                    forall|k: int, e: int|
                        0 <= k < i && 0 <= e < D::Dir::spec_count() ==> #[trigger] spec_marked_beside(
                            grid,
                            to_collapse@,
                            skip@,
                            to_collapse@[k],
                            e,
                        ),
                    forall|e: int|
                        0 <= e < d ==> #[trigger] spec_marked_beside(
                            grid,
                            to_collapse@,
                            skip@,
                            to_collapse@[i as int],
                            e,
                        ),
                decreases n - d,
            {
                let direction: D::Dir = D::Dir::from_idx(d);
                let ghost skip_before = skip@;
                match direction.march_step(&to_collapse[i], &grid.size) {
                    Some(neighbour) => {
                        proof {
                            direction.lemma_march_step_back(&to_collapse@[i as int], &grid.size);
                        }
                        let off: usize = grid.offset_of(&neighbour);
                        let collapsed: Option<usize> = match &grid.tiles[off] {
                            Some(cell) => cell.collapse_idx(),
                            None => None,
                        };
                        match collapsed {
                            Some(collapsed_idx) => {
                                if !skip[off] {
                                    skip[off] = true;
                                    proof {
                                        assert(!spec_listed::<D>(&grid.size, to_collapse@, off as int));
                                        assert forall|k: int| 0 <= k < out@.len() implies grid.size.spec_offset(
                                            &(#[trigger] out@[k]).position,
                                        ) != off by {
                                            grid.size.lemma_offset_in_range(&out@[k].position);
                                            assert(skip_before[grid.size.spec_offset(
                                                &out@[k].position,
                                            ) as int]);
                                        }
                                        lemma_items_marked_open(
                                            grid,
                                            out@,
                                            option_data,
                                            to_collapse@,
                                            skip_before,
                                            skip@,
                                            off as int,
                                        );
                                    }
                                    let mut o: usize = 0;
                                    while o < count
                                        invariant
                                            option_data.wf(),
                                            grid.wf(),
                                            0 <= o <= count,
                                            count == option_data.spec_option_count(),
                                            cells == grid.tiles@.len(),
                                            skip@.len() == cells,
                                            off == grid.size.spec_offset(&neighbour),
                                            off < cells,
                                            skip@[off as int],
                                            grid.size.spec_valid(&neighbour),
                                            grid.tiles@[off as int] is Some,
                                            grid.tiles@[off as int]->0.collapsed_option == Some(
                                                collapsed_idx,
                                            ),
                                            !spec_listed::<D>(&grid.size, to_collapse@, off as int),
                                            spec_items_marked(
                                                grid,
                                                out@,
                                                option_data,
                                                to_collapse@,
                                                skip@,
                                                off as int,
                                            ),
                                            forall|k: int|
                                                0 <= k < out@.len() && grid.size.spec_offset(
                                                    &(#[trigger] out@[k]).position,
                                                ) == off ==> out@[k].to_remove < o,
                                            forall|v: int|
                                                0 <= v < o && v != collapsed_idx
                                                    ==> #[trigger] crate::collapse::support::spec_pending(
                                                    out@,
                                                    &grid.size,
                                                    off as int,
                                                    v,
                                                ),
                                        decreases count - o,
                                    {
                                        let ghost before = out@;
                                        if o != collapsed_idx {
                                            out.push(PropagateItem::new(neighbour, o));
                                        }
                                        proof {
                                            lemma_items_marked_push(
                                                grid,
                                                before,
                                                out@,
                                                option_data,
                                                to_collapse@,
                                                skip@,
                                                off as int,
                                                neighbour,
                                                o,
                                            );
                                            assert forall|v: int|
                                                0 <= v < o + 1 && v != collapsed_idx implies #[trigger] crate::collapse::support::spec_pending(
                                                out@,
                                                &grid.size,
                                                off as int,
                                                v,
                                            ) by {
                                                if v < o {
                                                    lemma_pending_grows(&grid.size, before, out@, off as int, v);
                                                } else {
                                                    assert(out@[before.len() as int].to_remove == v);
                                                }
                                            }
                                        }
                                        o = o + 1;
                                    }
                                    proof {
                                        assert(spec_items_marked(
                                            grid,
                                            out@,
                                            option_data,
                                            to_collapse@,
                                            skip@,
                                            -1,
                                        ));
                                    }
                                }
                            },
                            None => {},
                        }
                    },
                    None => {},
                }
                proof {
                    lemma_marks_grow(grid, to_collapse@, skip_before, skip@, i as int, d as int);
                }
                d = d + 1;
            }
            i = i + 1;
        }
        proof {
            assert forall|k: int, e: int|
                0 <= k < to_collapse@.len() && 0 <= e < D::Dir::spec_count() implies #[trigger] spec_seeded_beside(
                grid,
                out@,
                option_data,
                to_collapse@,
                to_collapse@[k],
                e,
            ) by {
                assert(spec_marked_beside(grid, to_collapse@, skip@, to_collapse@[k], e));
                let to = D::Dir::spec_from_idx(e as nat).spec_march_step(&to_collapse@[k], &grid.size);
                if to is Some {
                    D::Dir::spec_from_idx(e as nat).lemma_march_step_back(&to_collapse@[k], &grid.size);
                    grid.size.lemma_offset_in_range(&to->0);
                }
            }
            assert forall|k: int| 0 <= k < out@.len() implies {
                let cell = grid.spec_at((#[trigger] out@[k]).position);
                &&& cell is Some
                &&& cell->0.collapsed_option is Some
                &&& cell->0.collapsed_option->0 != out@[k].to_remove
                &&& !spec_listed::<D>(
                    &grid.size,
                    to_collapse@,
                    grid.size.spec_offset(&out@[k].position) as int,
                )
            } by {
                grid.size.lemma_offset_in_range(&out@[k].position);
            }
        }
        out
    }

    /// Puts a fresh cell, with a noise drawn at random, at each of the
    /// positions, and the position into the queue.
    pub fn populate_entrophy(
        queue: &mut EntrophyQueue<D>,
        rng: &mut StdRng,
        grid: &mut GridMap<D, CollapsibleTile<D>>,
        positions: &[D::Pos],
        option_data: &PerOptionData<D>,
    )
        requires
            option_data.wf(),
            spec_cells_wf(old(grid), option_data),
            old(queue).wf(),
            old(queue).size == old(grid).size,
            old(queue).length == 0,
            forall|k: int| 0 <= k < positions@.len() ==> old(grid).size.spec_valid(&#[trigger] positions@[k]),
            forall|at: int|
                0 <= at < old(grid).tiles@.len() && (#[trigger] old(grid).tiles@[at]) is Some ==> old(grid).tiles@[at]->0.collapsed_option is Some,
        ensures
            spec_cells_wf(final(grid), option_data),
            final(grid).size == old(grid).size,
            final(grid).tiles@.len() == old(grid).tiles@.len(),
            final(queue).wf(),
            final(queue).size == old(queue).size,
            final(queue).length <= positions@.len(),
            forall|at: int|
                0 <= at < old(grid).tiles@.len() ==> if spec_listed::<D>(
                    &old(grid).size,
                    positions@,
                    at,
                ) {
                    &&& (#[trigger] final(grid).tiles@[at]) is Some
                    &&& spec_fresh(&final(grid).tiles@[at]->0, option_data)
                    &&& final(queue).by_pos@[at] is Some
                } else {
                    &&& final(grid).tiles@[at] == old(grid).tiles@[at]
                    &&& final(queue).by_pos@[at] is None
                },
    {
        proof {
            crate::collapse::queue::entrophy::lemma_count_keys_zero(
                queue.by_pos@,
                queue.by_pos@.len() as int,
            );
        }
        let mut i: usize = 0;
        while i < positions.len()
            invariant
                option_data.wf(),
                spec_cells_wf(grid, option_data),
                grid.size == old(grid).size,
                grid.tiles@.len() == old(grid).tiles@.len(),
                queue.wf(),
                queue.size == grid.size,
                queue.length <= i,
                0 <= i <= positions@.len(),
                forall|k: int|
                    0 <= k < positions@.len() ==> grid.size.spec_valid(&#[trigger] positions@[k]),
                forall|at: int|
                    0 <= at < grid.tiles@.len() ==> if spec_listed::<D>(
                        &grid.size,
                        positions@.take(i as int),
                        at,
                    ) {
                        &&& (#[trigger] grid.tiles@[at]) is Some
                        &&& spec_fresh(&grid.tiles@[at]->0, option_data)
                        &&& queue.by_pos@[at] is Some
                    } else {
                        &&& grid.tiles@[at] == old(grid).tiles@[at]
                        &&& queue.by_pos@[at] is None
                    },
            decreases positions@.len() - i,
        {
            let noise: u8 = sample_uniform_u8(rng, 0, NOISE_RANGE);
            let cell: CollapsibleTile<D> = CollapsibleTile::new_unconstrained(option_data, noise);
            let ghost grid_before = *grid;
            let ghost queue_before = *queue;
            proof {
                grid.size.lemma_offset_in_range(&positions@[i as int]);
                assert(spec_fresh(&cell, option_data));
            }
            queue.update_queue(&positions[i], &cell);
            grid.insert_data(&positions[i], cell);
            proof {
                let off = grid.size.spec_offset(&positions@[i as int]) as int;
                let s0 = positions@.take(i as int);
                let s1 = positions@.take(i as int + 1);
                assert(s1 == s0.push(positions@[i as int]));
                assert forall|at: int| 0 <= at < grid.tiles@.len() && grid.tiles@[at] is Some implies (
                #[trigger] grid.tiles@[at])->0.wf(option_data) by {
                    if at != off {
                        assert(grid.tiles@[at] == grid_before.tiles@[at]);
                    }
                }
                assert forall|at: int| 0 <= at < grid.tiles@.len() implies if spec_listed::<D>(
                    &grid.size,
                    s1,
                    at,
                ) {
                    &&& (#[trigger] grid.tiles@[at]) is Some
                    &&& spec_fresh(&grid.tiles@[at]->0, option_data)
                    &&& queue.by_pos@[at] is Some
                } else {
                    &&& grid.tiles@[at] == old(grid).tiles@[at]
                    &&& queue.by_pos@[at] is None
                } by {
                    if spec_listed::<D>(&grid.size, s0, at) {
                        let k = choose|k: int|
                            0 <= k < s0.len() && grid.size.spec_offset(&#[trigger] s0[k]) == at;
                        assert(grid.size.spec_offset(&s1[k]) == at);
                    }
                    if at == off {
                        assert(grid.size.spec_offset(&s1[i as int]) == at);
                        assert(spec_fresh(&grid.tiles@[at]->0, option_data));
                    } else {
                        assert(grid.tiles@[at] == grid_before.tiles@[at]);
                        assert(queue.by_pos@[at] == queue_before.by_pos@[at]);
                        if spec_listed::<D>(&grid.size, s0, at) {
                            assert(grid_before.tiles@[at] is Some);
                            assert(spec_fresh(&grid_before.tiles@[at]->0, option_data));
                            assert(spec_fresh(&grid.tiles@[at]->0, option_data));
                        }
                    }
                    if spec_listed::<D>(&grid.size, s1, at) {
                        let k = choose|k: int|
                            0 <= k < s1.len() && grid.size.spec_offset(&#[trigger] s1[k]) == at;
                        if k < i {
                            assert(grid.size.spec_offset(&s0[k]) == at);
                        }
                    }
                }
            }
            i = i + 1;
        }
        proof {
            assert(positions@.take(positions@.len() as int) == positions@);
        }
    }

    /// Collapses the cells at the positions, the cell of the smallest
    /// entropy first.
    ///
    /// Every cell of the grid that is not collapsed is removed first; then
    /// a fresh cell is put at each of the positions, whatever the grid held
    /// there. The cells that are left collapsed around the positions remove
    /// from the fresh cells what they do not permit beside them. Then the
    /// cell of the smallest entropy is collapsed to an option drawn at random
    /// by weight, and the removal of its other options is propagated, until
    /// every cell is collapsed.
    ///
    /// A run fails where a cell is found that is not collapsed and has no
    /// option left; the grid is left as it was at that moment. The error
    /// tells the position of that cell, the stage at which it was found, and
    /// the number of cells that had been collapsed and propagated before.
    ///
    /// A run cannot fail under a table that lets every option stand beside
    /// every option. A cell that comes up for collapse fails only where the
    /// table has no possible option; a failure before the first collapse
    /// needs a collapsed cell outside the positions. Where each rule has its
    /// mirror image and every option is possible, a failure shows in the
    /// grid: the cell is cut off from an option by what a neighbour holds.
    ///
    /// The subscriber, if there is one, is told of the start and then of
    /// each collapse in turn: one event for each cell at the positions that
    /// is collapsed in the end, with the tile type of the cell.
    pub fn generate_entrophy(
        &mut self,
        grid: &mut CollapsibleTileGrid<D>,
        rng: &mut StdRng,
        positions: &[D::Pos],
    ) -> (r: Result<(), CollapseError<D>>)
        requires
            old(grid).wf(),
            positions@.len() <= u32::MAX,
            forall|k: int|
                0 <= k < positions@.len() ==> old(grid).grid.size.spec_valid(&#[trigger] positions@[k]),
        ensures
            final(self).subscriber is Some <==> old(self).subscriber is Some,
            exists|events: Seq<(D::Pos, u64)>| #[trigger]
                spec_collapses(&final(grid).grid, &old(grid).option_data, positions@, events)
                    && spec_notified::<D, S>(old(self).subscriber, events, final(self).subscriber),
            r is Err && r->Err_0.kind is Collapse ==> old(grid).option_data.possible_options_count == 0,
            r is Err && r->Err_0.kind is Collapse ==> spec_seeds_idle(
                &old(grid).grid,
                &old(grid).option_data,
                positions@,
            ),
            r is Err && r->Err_0.kind is Propagation ==> old(grid).option_data.possible_options_count > 0,
            r is Ok && positions@.len() > 0 ==> old(grid).option_data.possible_options_count > 0,
            spec_permissive(&old(grid).option_data) ==> r is Ok,
            r is Err && old(grid).option_data.spec_symmetric() && crate::collapse::support::spec_all_possible(
                &old(grid).option_data,
            ) ==> old(grid).option_data.possible_options_count == 0 || spec_cell_cut_off(
                &final(grid).grid,
                &old(grid).option_data,
                r->Err_0.pos,
            ),
            r is Err && r->Err_0.kind is Init ==> exists|q: D::Pos|
                (#[trigger] final(grid).grid.spec_at(q)) is Some && final(grid).grid.spec_at(q)->0.collapsed_option is Some
                    && !positions@.contains(q),
            final(grid).wf(),
            final(grid).option_data == old(grid).option_data,
            final(grid).grid.size == old(grid).grid.size,
            spec_run_from::<D>(
                &old(grid).grid.size,
                final(grid).grid.tiles@,
                old(grid).grid.tiles@,
                positions@,
            ),
            r is Ok ==> spec_all_collapsed::<D>(
                &old(grid).grid.size,
                final(grid).grid.tiles@,
                positions@,
            ),
            r is Err ==> {
                &&& final(grid).grid.spec_at(r->Err_0.pos) is Some
                &&& final(grid).grid.spec_at(r->Err_0.pos)->0.collapsed_option is None
                &&& final(grid).grid.spec_at(r->Err_0.pos)->0.num_options == 0
                &&& r->Err_0.kind is Init ==> r->Err_0.iter == 0
                &&& r->Err_0.iter < positions@.len()
                &&& spec_collapsed_listed::<D>(
                    &old(grid).grid.size,
                    final(grid).grid.tiles@,
                    positions@,
                    final(grid).grid.tiles@.len() as int,
                ) == r->Err_0.iter + if r->Err_0.kind is Propagation {
                    1int
                } else {
                    0int
                }
            },
            old(grid).option_data.spec_symmetric() && crate::collapse::support::spec_all_possible(
                &old(grid).option_data,
            ) ==> spec_consistent(&final(grid).grid, &old(grid).option_data, positions@),
    {
        let ghost in_order = grid.option_data.spec_symmetric()
            && crate::collapse::support::spec_all_possible(&grid.option_data);
        let ghost full = spec_permissive(&grid.option_data);
        proof {
            if full {
                lemma_permissive_in_order(&grid.option_data);
                lemma_permissive_count(&grid.option_data);
            }
        }
        let cells: usize = grid.grid.tiles.len();
        let size: D::Size = *grid.grid.size();
        let mut queue: EntrophyQueue<D> = EntrophyQueue::new(size);
        let mut propagator: Propagator<D> = Propagator::new();
        self.notify_start();
        let ghost started: S = if self.subscriber is Some {
            self.subscriber->0
        } else {
            arbitrary()
        };
        let ghost mut events: Seq<(D::Pos, u64)> = Seq::empty();
        proof {
            lemma_told_nothing::<D, S>(started);
        }
        grid.remove_uncollapsed();
        let ghost cleared = grid.grid;
        Self::populate_entrophy(&mut queue, rng, &mut grid.grid, positions, &grid.option_data);
        let ghost populated = grid.grid;
        propagator.inner = Self::get_initial_propagate_items(&grid.grid, &grid.option_data, positions);
        proof {
            assert(spec_all_queued(&grid.grid, &queue)) by {
                assert forall|at: int|
                    0 <= at < grid.grid.tiles@.len() && (#[trigger] grid.grid.tiles@[at]) is Some
                        && grid.grid.tiles@[at]->0.collapsed_option is None implies queue.by_pos@[at] is Some by {
                    if !spec_listed::<D>(&size, positions@, at) {
                        assert(grid.grid.tiles@[at] == cleared.tiles@[at]);
                    }
                }
            }
        }
        proof {
            assert forall|at: int|
                0 <= at < grid.grid.tiles@.len() implies if spec_listed::<D>(&size, positions@, at) {
                (#[trigger] grid.grid.tiles@[at]) is Some && spec_fresh(
                    &grid.grid.tiles@[at]->0,
                    &grid.option_data,
                )
            } else {
                grid.grid.tiles@[at] is Some ==> grid.grid.tiles@[at]->0.collapsed_option is Some
            } by {
                if !spec_listed::<D>(&size, positions@, at) {
                    assert(grid.grid.tiles@[at] == cleared.tiles@[at]);
                }
            }
            lemma_fresh_consistent(&grid.grid, &grid.option_data, positions@);
            if in_order {
                lemma_initial_order(
                    &grid.grid,
                    propagator.inner@,
                    &grid.option_data,
                    positions@,
                );
            }
        }
        let ghost seeds = propagator.inner@;
        let ghost queue_filled = queue;
        proof {
            if full {
                assert(crate::collapse::queue::propagator::spec_nothing_lost(
                    &grid.grid,
                    seeds,
                    &grid.option_data,
                )) by {
                    assert forall|k: int| 0 <= k < seeds.len() implies grid.grid.tiles@[size.spec_offset(
                        &(#[trigger] seeds[k]).position,
                    ) as int] is Some && grid.grid.tiles@[size.spec_offset(
                        &seeds[k].position,
                    ) as int]->0.collapsed_option is Some by {
                        assert(size.spec_valid(&seeds[k].position));
                        size.lemma_offset_in_range(&seeds[k].position);
                        assert(grid.grid.spec_at(seeds[k].position) is Some);
                    }
                    assert forall|o: int|
                        0 <= o < grid.grid.tiles@.len() && (#[trigger] grid.grid.tiles@[o]) is Some
                            && grid.grid.tiles@[o]->0.collapsed_option is None implies grid.grid.tiles@[o]->0.num_options
                        == grid.option_data.spec_option_count() by {
                        if !spec_listed::<D>(&size, positions@, o) {
                            assert(grid.grid.tiles@[o] == cleared.tiles@[o]);
                        }
                        let fresh = grid.grid.tiles@[o]->0;
                        assert(fresh.wf(&grid.option_data));
                        crate::collapse::option::lemma_sums_same(
                            fresh.ways_to_be_option.table@,
                            grid.option_data.ways_to_be_option.table@,
                            grid.option_data.opt_with_weight@,
                            grid.option_data.spec_option_count() as int,
                        );
                    }
                    assert(crate::collapse::queue::propagator::spec_all_full(&grid.grid, &grid.option_data));
                    assert(crate::collapse::support::spec_tracking(
                        &grid.grid,
                        seeds,
                        &grid.option_data,
                        crate::collapse::support::spec_no_flight(),
                    ));
                }
            }
            if seeds.len() > 0 {
                let q = seeds[0].position;
                assert(grid.grid.spec_at(q) is Some);
                size.lemma_offset_in_range(&q);
                if positions@.contains(q) {
                    let k = choose|k: int| 0 <= k < positions@.len() && positions@[k] == q;
                    assert(spec_listed::<D>(&size, positions@, size.spec_offset(&q) as int));
                }
            }
        }
        let initial: Result<(), D::Pos> = propagator.propagate(
            &mut grid.grid,
            &grid.option_data,
            &mut queue,
        );
        proof {
            lemma_run_continues(
                &size,
                grid.grid,
                populated,
                old(grid).grid.tiles@,
                positions@,
            );
            lemma_consistent_continues(&grid.grid, &populated, &grid.option_data, positions@);
            assert forall|o: int|
                0 <= o < cells && spec_listed::<D>(&size, positions@, o) implies !((
            #[trigger] grid.grid.tiles@[o]) is Some && grid.grid.tiles@[o]->0.collapsed_option is Some) by {
                assert(populated.tiles@[o] is Some);
                assert(populated.tiles@[o]->0.collapsed_option is None);
            }
            lemma_collapsed_listed_same::<D>(
                &size,
                grid.grid.tiles@,
                grid.grid.tiles@,
                positions@,
                cells as int,
            );
        }
        proof {
            assert(spec_collapses(&grid.grid, &grid.option_data, positions@, events));
            lemma_notified::<D, S>(old(self).subscriber, started, events, self.subscriber);
            if grid.option_data.possible_options_count > 0 && initial is Ok {
                assert forall|o: int|
                    0 <= o < grid.grid.tiles@.len() && (#[trigger] queue.by_pos@[o]) is Some implies grid.grid.tiles@[o]->0.num_options
                    > 0 by {
                    assert(populated.tiles@[o] is Some);
                    let fresh = populated.tiles@[o]->0;
                    assert(fresh.wf(&grid.option_data));
                    crate::collapse::option::lemma_sums_same(
                        fresh.ways_to_be_option.table@,
                        grid.option_data.ways_to_be_option.table@,
                        grid.option_data.opt_with_weight@,
                        grid.option_data.spec_option_count() as int,
                    );
                }
            }
        }
        proof {
            if grid.option_data.possible_options_count == 0 && initial is Ok {
                assert forall|o: int|
                    0 <= o < grid.grid.tiles@.len() && (#[trigger] queue.by_pos@[o]) is Some implies grid.grid.tiles@[o]->0.num_options
                    == 0 by {
                    assert(populated.tiles@[o] is Some);
                    let fresh = populated.tiles@[o]->0;
                    assert(fresh.wf(&grid.option_data));
                    crate::collapse::option::lemma_sums_same(
                        fresh.ways_to_be_option.table@,
                        grid.option_data.ways_to_be_option.table@,
                        grid.option_data.opt_with_weight@,
                        grid.option_data.spec_option_count() as int,
                    );
                    assert(crate::collapse::queue::propagator::spec_key_renewed(
                        grid.grid.tiles@[o]->0,
                        queue.by_pos@[o],
                        populated.tiles@[o]->0,
                        queue_filled.by_pos@[o],
                    ));
                }
                assert forall|at: int| 0 <= at < populated.tiles@.len() implies if spec_listed::<D>(
                    &populated.size,
                    positions@,
                    at,
                ) {
                    &&& (#[trigger] populated.tiles@[at]) is Some
                    &&& populated.tiles@[at]->0.collapsed_option is None
                    &&& populated.tiles@[at]->0.num_options == 0
                } else {
                    populated.tiles@[at] == if old(grid).grid.tiles@[at] is Some && old(grid).grid.tiles@[at]->0.collapsed_option is Some {
                        old(grid).grid.tiles@[at]
                    } else {
                        None
                    }
                } by {
                    if spec_listed::<D>(&size, positions@, at) {
                        let fresh = populated.tiles@[at]->0;
                        assert(fresh.wf(&grid.option_data));
                        crate::collapse::option::lemma_sums_same(
                            fresh.ways_to_be_option.table@,
                            grid.option_data.ways_to_be_option.table@,
                            grid.option_data.opt_with_weight@,
                            grid.option_data.spec_option_count() as int,
                        );
                    } else {
                        assert(populated.tiles@[at] == cleared.tiles@[at]);
                    }
                }
                lemma_seeds_idle(
                    &old(grid).grid,
                    &populated,
                    seeds,
                    &grid.option_data,
                    positions@,
                );
            }
        }
        match initial {
            Err(position) => {
                proof {
                    lemma_failed_listed(&size, &grid.grid, &queue, positions@, position);
                    let q = seeds[0].position;
                    size.lemma_offset_in_range(&q);
                    assert(populated.spec_at(q) is Some);
                    if in_order {
                        lemma_refuted_plain(
                            &grid.grid,
                            propagator.inner@,
                            &grid.option_data,
                            position,
                            &populated,
                        );
                        size.lemma_offset_in_range(&position);
                        if populated.spec_at(position)->0.num_options == 0 {
                            let off = size.spec_offset(&position) as int;
                            assert(queue.by_pos@[off] is Some);
                            assert(spec_listed::<D>(&size, positions@, off));
                            let fresh = populated.tiles@[off]->0;
                            assert(fresh.wf(&grid.option_data));
                            crate::collapse::option::lemma_sums_same(
                                fresh.ways_to_be_option.table@,
                                grid.option_data.ways_to_be_option.table@,
                                grid.option_data.opt_with_weight@,
                                grid.option_data.spec_option_count() as int,
                            );
                        }
                    }
                    assert(grid.grid.spec_at(q) is Some && grid.grid.spec_at(q)->0.collapsed_option is Some);
                }
                return Err(CollapseError::new(position, CollapseErrorKind::Init, 0));
            },
            Ok(_) => {},
        }
        let mut iter: u32 = 0;
        loop
            invariant
                self.subscriber is Some <==> old(self).subscriber is Some,
                grid.wf(),
                grid.option_data == old(grid).option_data,
                grid.grid.size == size,
                size == old(grid).grid.size,
                queue.wf(),
                spec_all_queued(&grid.grid, &queue),
                propagator.inner@.len() == 0,
                in_order ==> spec_consistent(&grid.grid, &grid.option_data, positions@),
                forall|k: int| 0 <= k < positions@.len() ==> size.spec_valid(&#[trigger] positions@[k]),
                in_order == (old(grid).option_data.spec_symmetric()
                    && crate::collapse::support::spec_all_possible(&old(grid).option_data)),
                in_order ==> crate::collapse::support::spec_tracking(
                    &grid.grid,
                    propagator.inner@,
                    &grid.option_data,
                    crate::collapse::support::spec_no_flight(),
                ),
                positions@.len() <= u32::MAX,
                iter + queue.length <= positions@.len(),
                cells == grid.grid.tiles@.len(),
                iter == spec_collapsed_listed::<D>(&size, grid.grid.tiles@, positions@, cells as int),
                spec_collapses(&grid.grid, &grid.option_data, positions@, events),
                self.subscriber is Some ==> old(self).subscriber->0.spec_started(&started) && spec_told::<
                    D,
                    S,
                >(started, events, self.subscriber->0),
                grid.option_data.possible_options_count > 0 ==> forall|o: int|
                    0 <= o < grid.grid.tiles@.len() && (#[trigger] queue.by_pos@[o]) is Some
                        ==> grid.grid.tiles@[o]->0.num_options > 0,
                full == spec_permissive(&grid.option_data),
                grid.option_data.possible_options_count == 0 ==> iter == 0 && spec_seeds_idle(
                    &old(grid).grid,
                    &grid.option_data,
                    positions@,
                ) && forall|o: int|
                    0 <= o < grid.grid.tiles@.len() && (#[trigger] queue.by_pos@[o]) is Some
                        ==> grid.grid.tiles@[o]->0.num_options == 0,
                full ==> in_order && grid.option_data.possible_options_count > 0
                    && crate::collapse::queue::propagator::spec_all_full(&grid.grid, &grid.option_data),
                spec_run_from::<D>(&size, grid.grid.tiles@, old(grid).grid.tiles@, positions@),
                forall|at: int|
                    0 <= at < grid.grid.tiles@.len() && (#[trigger] queue.by_pos@[at]) is Some ==> {
                        &&& spec_listed::<D>(&size, positions@, at)
                        &&& grid.grid.tiles@[at] is Some
                        &&& grid.grid.tiles@[at]->0.collapsed_option is None
                    },
            decreases queue.length,
        {
            let ghost queue_before = queue;
            let ghost start_items = propagator.inner@;
            let next: Option<D::Pos> = queue.get_next_position();
            let collapse_position: D::Pos = match next {
                Some(position) => position,
                None => {
                    proof {
                        crate::collapse::queue::entrophy::lemma_count_keys_zero(
                            queue.by_pos@,
                            queue.by_pos@.len() as int,
                        );
                        assert forall|at: int|
                            0 <= at < grid.grid.tiles@.len() && spec_listed::<D>(
                                &size,
                                positions@,
                                at,
                            ) implies (#[trigger] grid.grid.tiles@[at]) is Some
                            && grid.grid.tiles@[at]->0.collapsed_option is Some by {
                            if grid.grid.tiles@[at]->0.collapsed_option is None {
                                assert(queue.by_pos@[at] is Some);
                            }
                        }
                    }
                    proof {
                        lemma_notified::<D, S>(old(self).subscriber, started, events, self.subscriber);
                        if positions@.len() > 0 {
                            let first = size.spec_offset(&positions@[0]) as int;
                            size.lemma_offset_in_range(&positions@[0]);
                            assert(spec_listed::<D>(&size, positions@, first));
                            lemma_collapsed_listed_one::<D>(
                                &size,
                                grid.grid.tiles@,
                                positions@,
                                first,
                                cells as int,
                            );
                        }
                    }
                    return Ok(());
                },
            };
            proof {
                size.lemma_offset_in_range(&collapse_position);
            }
            let ghost at = size.spec_offset(&collapse_position) as int;
            let ghost grid_before = grid.grid;
            let mut failed: bool = false;
            let mut collapsed_idx: usize = 0;
            let mut removed_options: Vec<usize> = Vec::new();
            match grid.grid.get_mut_data_at_position(&collapse_position) {
                Some(to_collapse) => {
                    if !to_collapse.has_compatible_options() {
                        failed = true;
                    } else {
                        proof {
                            to_collapse.lemma_weight_positive(&grid.option_data);
                        }
                        removed_options = to_collapse.collapse_gather_removed(rng, &grid.option_data);
                        collapsed_idx = to_collapse.collapse_idx().unwrap();
                    }
                },
                None => {},
            }
            if failed {
                proof {
                    assert(grid.grid.tiles@ =~= grid_before.tiles@);
                    if in_order {
                        lemma_consistent_same_cells(
                            &grid.grid,
                            &grid_before,
                            &grid.option_data,
                            positions@,
                        );
                    }
                    assert(queue_before.by_pos@[at] is Some);
                    assert(spec_collapses(&grid.grid, &grid.option_data, positions@, events));
                    lemma_notified::<D, S>(old(self).subscriber, started, events, self.subscriber);
                }
                return Err(CollapseError::new(collapse_position, CollapseErrorKind::Collapse, iter));
            }
            proof {
                let cell = grid.grid.tiles@[at]->0;
                assert(grid.grid.tiles@ == grid_before.tiles@.update(at, Some(cell)));
                assert forall|o: int|
                    0 <= o < grid.grid.tiles@.len() && grid.grid.tiles@[o] is Some implies (
                #[trigger] grid.grid.tiles@[o])->0.wf(&grid.option_data) by {
                    if o != at {
                        assert(grid.grid.tiles@[o] == grid_before.tiles@[o]);
                    }
                }
                assert(spec_all_queued(&grid.grid, &queue)) by {
                    assert forall|o: int|
                        0 <= o < grid.grid.tiles@.len() && (#[trigger] grid.grid.tiles@[o]) is Some
                            && grid.grid.tiles@[o]->0.collapsed_option is None implies queue.by_pos@[o] is Some by {
                        if o != at {
                            assert(grid.grid.tiles@[o] == grid_before.tiles@[o]);
                            assert(queue_before.by_pos@[o] is Some);
                        }
                    }
                }
                assert(spec_run_from::<D>(&size, grid.grid.tiles@, old(grid).grid.tiles@, positions@)) by {
                    assert forall|o: int| 0 <= o < old(grid).grid.tiles@.len() implies if spec_listed::<
                        D,
                    >(&size, positions@, o) {
                        (#[trigger] grid.grid.tiles@[o]) is Some
                    } else {
                        grid.grid.tiles@[o] == if old(grid).grid.tiles@[o] is Some && old(grid).grid.tiles@[o]->0.collapsed_option is Some {
                            old(grid).grid.tiles@[o]
                        } else {
                            None
                        }
                    } by {
                        if o != at {
                            assert(grid.grid.tiles@[o] == grid_before.tiles@[o]);
                        }
                    }
                }
                assert forall|o: int|
                    0 <= o < grid.grid.tiles@.len() && (#[trigger] queue.by_pos@[o]) is Some implies {
                    &&& spec_listed::<D>(&size, positions@, o)
                    &&& grid.grid.tiles@[o] is Some
                    &&& grid.grid.tiles@[o]->0.collapsed_option is None
                } by {
                    assert(queue_before.by_pos@[o] is Some);
                    assert(o != at);
                    assert(grid.grid.tiles@[o] == grid_before.tiles@[o]);
                }
            }
            proof {
                lemma_collapsed_listed_grows::<D>(
                    &size,
                    grid_before.tiles@,
                    grid.grid.tiles@,
                    positions@,
                    at,
                    cells as int,
                );
            }
            let ghost told_before = self.subscriber;
            let ghost events_before = events;
            self.notify_collapse(&collapse_position, grid.option_data.ids[collapsed_idx]);
            proof {
                assert(positions@.contains(collapse_position)) by {
                    let k = choose|k: int|
                        0 <= k < positions@.len() && size.spec_offset(&#[trigger] positions@[k]) == at;
                    size.lemma_pos_from_offset_of_offset(&positions@[k]);
                    size.lemma_pos_from_offset_of_offset(&collapse_position);
                }
                let tile_type_id = grid.option_data.ids@[collapsed_idx as int];
                lemma_collapses_grow(
                    &grid.grid,
                    &grid_before,
                    &grid.option_data,
                    positions@,
                    events_before,
                    collapse_position,
                    tile_type_id,
                );
                events = events_before.push((collapse_position, tile_type_id));
                if self.subscriber is Some {
                    lemma_told_more::<D, S>(
                        started,
                        events_before,
                        told_before->0,
                        collapse_position,
                        tile_type_id,
                        self.subscriber->0,
                    );
                }
            }
            let mut k: usize = 0;
            while k < removed_options.len()
                invariant
                    0 <= k <= removed_options@.len(),
                    size.spec_valid(&collapse_position),
                    grid.grid.size == size,
                    forall|j: int|
                        0 <= j < removed_options@.len() ==> removed_options@[j]
                            < grid.option_data.spec_option_count(),
                    spec_items_ok(propagator.inner@, &size, &grid.option_data),
                    propagator.inner@.len() == k,
                    forall|j: int|
                        0 <= j < k ==> (#[trigger] propagator.inner@[j]).position == collapse_position
                            && propagator.inner@[j].to_remove == removed_options@[j],
                decreases removed_options@.len() - k,
            {
                propagator.push_propagate(PropagateItem::new(collapse_position, removed_options[k]));
                k = k + 1;
            }
            proof {
                assert(positions@.contains(collapse_position)) by {
                    let k = choose|k: int|
                        0 <= k < positions@.len() && size.spec_offset(&#[trigger] positions@[k]) == at;
                    size.lemma_pos_from_offset_of_offset(&positions@[k]);
                    size.lemma_pos_from_offset_of_offset(&collapse_position);
                }
                if in_order {
                    let items = propagator.inner@;
                    let cell_b = grid_before.tiles@[at]->0;
                    assert forall|a: int, b: int| 0 <= a < b < items.len() implies (
                    #[trigger] items[a]).to_remove != (#[trigger] items[b]).to_remove by {
                        assert(removed_options@[a] < removed_options@[b]);
                    }
                    assert forall|j: int| 0 <= j < grid.option_data.spec_option_count() implies ((
                    exists|k: int| 0 <= k < items.len() && (#[trigger] items[k]).to_remove == j) <==> (
                    cell_b.ways_to_be_option.spec_possible(j) && j != collapsed_idx)) by {
                        assert(crate::collapse::support::spec_lists(removed_options@, j) <==> (
                        cell_b.ways_to_be_option.spec_possible(j) && j != collapsed_idx));
                        if crate::collapse::support::spec_lists(removed_options@, j) {
                            let k = choose|k: int|
                                0 <= k < removed_options@.len() && #[trigger] removed_options@[k] == j;
                            assert(items[k].to_remove == j);
                        }
                        if exists|k: int| 0 <= k < items.len() && (#[trigger] items[k]).to_remove == j {
                            let k = choose|k: int|
                                0 <= k < items.len() && (#[trigger] items[k]).to_remove == j;
                            assert(removed_options@[k] == j);
                        }
                    }
                    assert(start_items =~= Seq::<PropagateItem<D>>::empty());
                    lemma_collapse_in_order(
                        &grid_before,
                        &grid.grid,
                        items,
                        &grid.option_data,
                        positions@,
                        collapse_position,
                        collapsed_idx,
                    );
                }
            }
            let ghost collapsed_grid = grid.grid;
            let ghost queue_popped = queue;
            proof {
                if full {
                    assert(crate::collapse::queue::propagator::spec_nothing_lost(
                        &grid.grid,
                        propagator.inner@,
                        &grid.option_data,
                    )) by {
                        assert forall|o: int|
                            0 <= o < grid.grid.tiles@.len() && (#[trigger] grid.grid.tiles@[o]) is Some
                                && grid.grid.tiles@[o]->0.collapsed_option is None implies grid.grid.tiles@[o]->0.num_options
                            == grid.option_data.spec_option_count() by {
                            if o != at {
                                assert(grid.grid.tiles@[o] == grid_before.tiles@[o]);
                            }
                        }
                    }
                }
            }
            let result: Result<(), D::Pos> = propagator.propagate(
                &mut grid.grid,
                &grid.option_data,
                &mut queue,
            );
            proof {
                lemma_run_continues(
                    &size,
                    grid.grid,
                    collapsed_grid,
                    old(grid).grid.tiles@,
                    positions@,
                );
                if in_order {
                    lemma_consistent_continues(
                        &grid.grid,
                        &collapsed_grid,
                        &grid.option_data,
                        positions@,
                    );
                }
                assert forall|o: int|
                    0 <= o < cells && spec_listed::<D>(&size, positions@, o) implies ((
                #[trigger] grid.grid.tiles@[o]) is Some && grid.grid.tiles@[o]->0.collapsed_option is Some)
                    == (collapsed_grid.tiles@[o] is Some && collapsed_grid.tiles@[o]->0.collapsed_option is Some) by {
                    assert(collapsed_grid.tiles@[o] is Some);
                }
                lemma_collapsed_listed_same::<D>(
                    &size,
                    grid.grid.tiles@,
                    collapsed_grid.tiles@,
                    positions@,
                    cells as int,
                );
                lemma_collapses_continue(
                    &grid.grid,
                    &collapsed_grid,
                    &grid.option_data,
                    positions@,
                    events,
                );
                lemma_notified::<D, S>(old(self).subscriber, started, events, self.subscriber);
                if grid.option_data.possible_options_count > 0 && result is Ok {
                    assert forall|o: int|
                        0 <= o < grid.grid.tiles@.len() && (#[trigger] queue.by_pos@[o]) is Some implies grid.grid.tiles@[o]->0.num_options
                        > 0 by {
                        assert(collapsed_grid.tiles@[o] is Some);
                        assert(queue_popped.by_pos@[o] is Some);
                    }
                }
                assert forall|o: int|
                    0 <= o < grid.grid.tiles@.len() && (#[trigger] queue.by_pos@[o]) is Some implies {
                    &&& spec_listed::<D>(&size, positions@, o)
                    &&& grid.grid.tiles@[o] is Some
                    &&& grid.grid.tiles@[o]->0.collapsed_option is None
                } by {
                    assert(collapsed_grid.tiles@[o] is Some);
                }
            }
            match result {
                Err(position) => {
                    proof {
                        lemma_failed_listed(&size, &grid.grid, &queue, positions@, position);
                        if in_order {
                            lemma_refuted_plain(
                                &grid.grid,
                                propagator.inner@,
                                &grid.option_data,
                                position,
                                &collapsed_grid,
                            );
                            size.lemma_offset_in_range(&position);
                            if collapsed_grid.spec_at(position)->0.num_options == 0 {
                                let off = size.spec_offset(&position) as int;
                                assert(queue.by_pos@[off] is Some);
                                assert(queue_popped.by_pos@[off] is Some);
                            }
                        }
                    }
                    return Err(CollapseError::new(position, CollapseErrorKind::Propagation, iter));
                },
                Ok(_) => {},
            }
            iter = iter + 1;
        }
    }

    /// Puts a fresh cell without noise at each of the positions, and the
    /// position into the queue.
    pub fn populate_position<P: PositionQueueProcession<D>>(
        queue: &mut PositionQueue<D, P>,
        grid: &mut GridMap<D, CollapsibleTile<D>>,
        positions: &[D::Pos],
        option_data: &PerOptionData<D>,
    )
        requires
            option_data.wf(),
            spec_cells_wf(old(grid), option_data),
            old(queue).wf(),
            old(queue).positions@.len() == 0,
            forall|k: int| 0 <= k < positions@.len() ==> old(grid).size.spec_valid(&#[trigger] positions@[k]),
        ensures
            spec_cells_wf(final(grid), option_data),
            final(grid).size == old(grid).size,
            final(grid).tiles@.len() == old(grid).tiles@.len(),
            final(queue).wf(),
            final(queue).procession == old(queue).procession,
            final(queue).positions@.len() <= positions@.len(),
            forall|p: D::Pos| final(queue).spec_contains(p) <==> positions@.contains(p),
            forall|at: int|
                0 <= at < old(grid).tiles@.len() ==> if spec_listed::<D>(
                    &old(grid).size,
                    positions@,
                    at,
                ) {
                    &&& (#[trigger] final(grid).tiles@[at]) is Some
                    &&& final(grid).tiles@[at]->0.collapsed_option is None
                    &&& spec_fresh(&final(grid).tiles@[at]->0, option_data)
                    &&& final(grid).tiles@[at]->0.num_options == option_data.possible_options_count
                    &&& final(grid).tiles@[at]->0.entrophy_noise == 0
                } else {
                    final(grid).tiles@[at] == old(grid).tiles@[at]
                },
    {
        let mut i: usize = 0;
        while i < positions.len()
            invariant
                option_data.wf(),
                spec_cells_wf(grid, option_data),
                grid.size == old(grid).size,
                grid.tiles@.len() == old(grid).tiles@.len(),
                queue.wf(),
                queue.procession == old(queue).procession,
                queue.positions@.len() <= i,
                0 <= i <= positions@.len(),
                forall|k: int|
                    0 <= k < positions@.len() ==> grid.size.spec_valid(&#[trigger] positions@[k]),
                forall|p: D::Pos| queue.spec_contains(p) <==> positions@.take(i as int).contains(p),
                forall|at: int|
                    0 <= at < grid.tiles@.len() ==> if spec_listed::<D>(
                        &grid.size,
                        positions@.take(i as int),
                        at,
                    ) {
                        &&& (#[trigger] grid.tiles@[at]) is Some
                        &&& grid.tiles@[at]->0.collapsed_option is None
                        &&& spec_fresh(&grid.tiles@[at]->0, option_data)
                        &&& grid.tiles@[at]->0.num_options == option_data.possible_options_count
                        &&& grid.tiles@[at]->0.entrophy_noise == 0
                    } else {
                        grid.tiles@[at] == old(grid).tiles@[at]
                    },
            decreases positions@.len() - i,
        {
            let cell: CollapsibleTile<D> = CollapsibleTile::new_unconstrained(option_data, 0);
            let ghost grid_before = *grid;
            let ghost queue_before = *queue;
            proof {
                grid.size.lemma_offset_in_range(&positions@[i as int]);
            }
            queue.update_queue(positions[i]);
            grid.insert_data(&positions[i], cell);
            proof {
                let off = grid.size.spec_offset(&positions@[i as int]) as int;
                let s0 = positions@.take(i as int);
                let s1 = positions@.take(i as int + 1);
                assert(s1 == s0.push(positions@[i as int]));
                assert forall|p: D::Pos| queue.spec_contains(p) <==> s1.contains(p) by {
                    if s0.contains(p) {
                        let k = choose|k: int| 0 <= k < s0.len() && s0[k] == p;
                        assert(s1[k] == p);
                    }
                    if p == positions@[i as int] {
                        assert(s1[i as int] == p);
                    }
                    if s1.contains(p) {
                        let k = choose|k: int| 0 <= k < s1.len() && s1[k] == p;
                        if k < i {
                            assert(s0[k] == p);
                        }
                    }
                }
                assert forall|at: int| 0 <= at < grid.tiles@.len() && grid.tiles@[at] is Some implies (
                #[trigger] grid.tiles@[at])->0.wf(option_data) by {
                    if at != off {
                        assert(grid.tiles@[at] == grid_before.tiles@[at]);
                    }
                }
                assert forall|at: int| 0 <= at < grid.tiles@.len() implies if spec_listed::<D>(
                    &grid.size,
                    s1,
                    at,
                ) {
                    &&& (#[trigger] grid.tiles@[at]) is Some
                    &&& grid.tiles@[at]->0.collapsed_option is None
                    &&& spec_fresh(&grid.tiles@[at]->0, option_data)
                    &&& grid.tiles@[at]->0.num_options == option_data.possible_options_count
                    &&& grid.tiles@[at]->0.entrophy_noise == 0
                } else {
                    grid.tiles@[at] == old(grid).tiles@[at]
                } by {
                    if spec_listed::<D>(&grid.size, s0, at) {
                        let k = choose|k: int|
                            0 <= k < s0.len() && grid.size.spec_offset(&#[trigger] s0[k]) == at;
                        assert(grid.size.spec_offset(&s1[k]) == at);
                    }
                    if at == off {
                        assert(grid.size.spec_offset(&s1[i as int]) == at);
                    } else {
                        assert(grid.tiles@[at] == grid_before.tiles@[at]);
                    }
                    if spec_listed::<D>(&grid.size, s1, at) {
                        let k = choose|k: int|
                            0 <= k < s1.len() && grid.size.spec_offset(&#[trigger] s1[k]) == at;
                        if k < i {
                            assert(grid.size.spec_offset(&s0[k]) == at);
                        }
                    }
                }
            }
            i = i + 1;
        }
        proof {
            assert(positions@.take(positions@.len() as int) == positions@);
        }
    }

    /// Collapses the cells at the positions in the order of the queue.
    ///
    /// Every cell of the grid that is not collapsed is removed first; then
    /// a fresh cell is put at each of the positions, whatever the grid held
    /// there. Each cell in turn loses the options that its neighbours do not
    /// leave to it, is collapsed to one of the others, drawn at random by
    /// weight, and takes from its neighbours the options that its own option
    /// does not permit beside it.
    ///
    /// A run fails where the cell that is to be collapsed has no option
    /// left; the grid is left as it was at that moment. The error tells the
    /// position of that cell and the number of cells that had been collapsed
    /// before.
    ///
    /// Where each rule of the table has its mirror image, every cell that
    /// the run has collapsed agrees with each of its collapsed neighbours.
    ///
    /// A run cannot fail under a table that lets every option stand beside
    /// every option. Where it fails, the neighbours of the cell leave it
    /// none of the options that it can still become. In every outcome each
    /// collapsed cell at the positions has taken from its neighbours that
    /// are not collapsed what its option does not permit beside it.
    ///
    /// The subscriber, if there is one, is told of the start and then of
    /// each collapse in turn, in the order of the queue: one event for each
    /// cell at the positions that is collapsed in the end, with the tile
    /// type of the cell.
    pub fn generate_position<P: PositionQueueProcession<D>>(
        &mut self,
        grid: &mut CollapsibleTileGrid<D>,
        rng: &mut StdRng,
        positions: &[D::Pos],
        queue: PositionQueue<D, P>,
    ) -> (r: Result<(), CollapseError<D>>)
        requires
            old(grid).wf(),
            queue.wf(),
            queue.positions@.len() == 0,
            positions@.len() <= u32::MAX,
            forall|k: int|
                0 <= k < positions@.len() ==> old(grid).grid.size.spec_valid(&#[trigger] positions@[k]),
        ensures
            final(self).subscriber is Some <==> old(self).subscriber is Some,
            exists|events: Seq<(D::Pos, u64)>| #[trigger]
                spec_collapses(&final(grid).grid, &old(grid).option_data, positions@, events)
                    && spec_notified::<D, S>(old(self).subscriber, events, final(self).subscriber)
                    && spec_in_order::<D, P>(&queue.procession, events),
            spec_permissive(&old(grid).option_data) ==> r is Ok,
            r is Ok && positions@.len() > 0 ==> old(grid).option_data.possible_options_count > 0,
            r is Err && r->Err_0.iter > 0 ==> old(grid).option_data.possible_options_count > 0,
            spec_neighbours_purged(&final(grid).grid, &old(grid).option_data, positions@),
            final(grid).wf(),
            final(grid).option_data == old(grid).option_data,
            final(grid).grid.size == old(grid).grid.size,
            spec_run_from::<D>(
                &old(grid).grid.size,
                final(grid).grid.tiles@,
                old(grid).grid.tiles@,
                positions@,
            ),
            old(grid).option_data.spec_symmetric() ==> spec_consistent(
                &final(grid).grid,
                &old(grid).option_data,
                positions@,
            ),
            r is Ok ==> spec_all_collapsed::<D>(
                &old(grid).grid.size,
                final(grid).grid.tiles@,
                positions@,
            ),
            r is Err ==> {
                &&& r->Err_0.kind is Collapse
                &&& positions@.contains(r->Err_0.pos)
                &&& final(grid).grid.spec_at(r->Err_0.pos) is Some
                &&& final(grid).grid.spec_at(r->Err_0.pos)->0.collapsed_option is None
                &&& r->Err_0.iter < positions@.len()
                &&& spec_collapsed_listed::<D>(
                    &old(grid).grid.size,
                    final(grid).grid.tiles@,
                    positions@,
                    final(grid).grid.tiles@.len() as int,
                ) == r->Err_0.iter
                &&& forall|o: int|
                    0 <= o < old(grid).option_data.spec_option_count() ==> !(final(grid).grid.spec_at(
                        r->Err_0.pos,
                    )->0.ways_to_be_option.spec_possible(o) && #[trigger] spec_compatible(
                        &final(grid).grid,
                        &old(grid).option_data,
                        r->Err_0.pos,
                        o,
                    ))
            },
    {
        let cells: usize = grid.grid.tiles.len();
        let size: D::Size = *grid.grid.size();
        let ghost procession: P = queue.procession;
        let ghost full: bool = spec_permissive(&grid.option_data);
        let mut pending: PositionQueue<D, P> = queue;
        self.notify_start();
        let ghost started: S = if self.subscriber is Some {
            self.subscriber->0
        } else {
            arbitrary()
        };
        let ghost mut events: Seq<(D::Pos, u64)> = Seq::empty();
        proof {
            lemma_told_nothing::<D, S>(started);
        }
        grid.remove_uncollapsed();
        let ghost cleared = grid.grid;
        Self::populate_position(&mut pending, &mut grid.grid, positions, &grid.option_data);
        proof {
            assert forall|o: int|
                0 <= o < grid.grid.tiles@.len() && (#[trigger] grid.grid.tiles@[o]) is Some
                    && grid.grid.tiles@[o]->0.collapsed_option is None implies grid.grid.tiles@[o]->0.num_options
                == grid.option_data.possible_options_count by {
                if !spec_listed::<D>(&size, positions@, o) {
                    assert(grid.grid.tiles@[o] == cleared.tiles@[o]);
                }
            }
            assert(spec_neighbours_purged(&grid.grid, &grid.option_data, positions@));
            lemma_fresh_consistent(&grid.grid, &grid.option_data, positions@);
            lemma_collapsed_listed_same::<D>(
                &size,
                grid.grid.tiles@,
                grid.grid.tiles@,
                positions@,
                cells as int,
            );
        }
        let mut iter: u32 = 0;
        loop
            invariant
                self.subscriber is Some <==> old(self).subscriber is Some,
                grid.wf(),
                grid.option_data == old(grid).option_data,
                grid.grid.size == size,
                size == old(grid).grid.size,
                pending.wf(),
                positions@.len() <= u32::MAX,
                iter + pending.positions@.len() <= positions@.len(),
                cells == grid.grid.tiles@.len(),
                iter == spec_collapsed_listed::<D>(&size, grid.grid.tiles@, positions@, cells as int),
                pending.procession == procession,
                spec_neighbours_purged(&grid.grid, &grid.option_data, positions@),
                procession == queue.procession,
                spec_collapses(&grid.grid, &grid.option_data, positions@, events),
                spec_in_order::<D, P>(&procession, events),
                forall|k: int, p: D::Pos|
                    0 <= k < events.len() && #[trigger] pending.spec_contains(p) ==> procession.spec_before(
                        (#[trigger] events[k]).0,
                        p,
                    ),
                self.subscriber is Some ==> old(self).subscriber->0.spec_started(&started) && spec_told::<
                    D,
                    S,
                >(started, events, self.subscriber->0),
                full == spec_permissive(&grid.option_data),
                iter > 0 ==> grid.option_data.possible_options_count > 0,
                forall|o: int|
                    0 <= o < grid.grid.tiles@.len() && (#[trigger] grid.grid.tiles@[o]) is Some
                        && grid.grid.tiles@[o]->0.collapsed_option is None ==> grid.grid.tiles@[o]->0.num_options
                        <= grid.option_data.possible_options_count,
                full ==> forall|o: int|
                    0 <= o < grid.grid.tiles@.len() && (#[trigger] grid.grid.tiles@[o]) is Some
                        && grid.grid.tiles@[o]->0.collapsed_option is None ==> grid.grid.tiles@[o]->0.num_options
                        == grid.option_data.possible_options_count,
                forall|k: int| 0 <= k < positions@.len() ==> size.spec_valid(&#[trigger] positions@[k]),
                spec_run_from::<D>(&size, grid.grid.tiles@, old(grid).grid.tiles@, positions@),
                forall|p: D::Pos| pending.spec_contains(p) ==> positions@.contains(p),
                forall|k: int|
                    0 <= k < positions@.len() ==> pending.spec_contains(#[trigger] positions@[k])
                        || grid.grid.spec_at(positions@[k])->0.collapsed_option is Some,
                grid.option_data.spec_symmetric() ==> spec_consistent(
                    &grid.grid,
                    &grid.option_data,
                    positions@,
                ),
            decreases pending.positions@.len(),
        {
            let ghost start_queue = pending;
            let next: Option<D::Pos> = pending.get_next_position();
            let collapse_position: D::Pos = match next {
                Some(position) => position,
                None => {
                    proof {
                        assert forall|at: int|
                            0 <= at < grid.grid.tiles@.len() && spec_listed::<D>(
                                &size,
                                positions@,
                                at,
                            ) implies (#[trigger] grid.grid.tiles@[at]) is Some
                            && grid.grid.tiles@[at]->0.collapsed_option is Some by {
                            let k = choose|k: int|
                                0 <= k < positions@.len() && size.spec_offset(
                                    &#[trigger] positions@[k],
                                ) == at;
                            assert(!pending.spec_contains(positions@[k]));
                        }
                        lemma_notified::<D, S>(old(self).subscriber, started, events, self.subscriber);
                        assert(spec_collapses(&grid.grid, &grid.option_data, positions@, events)
                            && spec_in_order::<D, P>(&procession, events));
                        if positions@.len() > 0 {
                            let first = size.spec_offset(&positions@[0]) as int;
                            size.lemma_offset_in_range(&positions@[0]);
                            assert(spec_listed::<D>(&size, positions@, first));
                            lemma_collapsed_listed_one::<D>(
                                &size,
                                grid.grid.tiles@,
                                positions@,
                                first,
                                cells as int,
                            );
                        }
                    }
                    return Ok(());
                },
            };
            proof {
                let k = choose|k: int| 0 <= k < positions@.len() && positions@[k] == collapse_position;
                assert(size.spec_valid(&positions@[k]));
                size.lemma_offset_in_range(&collapse_position);
                assert(spec_listed::<D>(&size, positions@, size.spec_offset(&positions@[k]) as int));
            }
            let ghost at = size.spec_offset(&collapse_position) as int;
            let already: bool = match grid.grid.get_data_at_position(&collapse_position) {
                Some(cell) => cell.is_collapsed(),
                None => true,
            };
            if !already {
                let ghost unpurged = grid.grid;
                let left: bool = purge_incompatible_options(
                    &mut grid.grid,
                    &collapse_position,
                    &grid.option_data,
                );
                proof {
                    lemma_run_continues(
                        &size,
                        grid.grid,
                        unpurged,
                        old(grid).grid.tiles@,
                        positions@,
                    );
                    if grid.option_data.spec_symmetric() {
                        lemma_consistent_continues(
                            &grid.grid,
                            &unpurged,
                            &grid.option_data,
                            positions@,
                        );
                    }
                    lemma_collapsed_listed_same::<D>(
                        &size,
                        grid.grid.tiles@,
                        unpurged.tiles@,
                        positions@,
                        cells as int,
                    );
                    lemma_collapses_continue(
                        &grid.grid,
                        &unpurged,
                        &grid.option_data,
                        positions@,
                        events,
                    );
                    lemma_purged_continue(&grid.grid, &unpurged, &grid.option_data, positions@);
                    lemma_fewer_options_all(&grid.grid, &unpurged, &grid.option_data);
                    if full {
                        lemma_permissive_count(&grid.option_data);
                        lemma_all_compatible(&unpurged, &grid.option_data, collapse_position);
                        assert(spec_compatible(&unpurged, &grid.option_data, collapse_position, 0));
                        assert(left);
                        lemma_same_options(
                            &grid.grid.tiles@[at]->0,
                            &unpurged.tiles@[at]->0,
                            &grid.option_data,
                        );
                    }
                    if left && grid.grid.tiles@[at]->0.num_options == 0 {
                        lemma_no_option(&grid.grid.tiles@[at]->0, &grid.option_data);
                    }
                }
                let ghost purged = grid.grid;
                let mut collapsed: Option<usize> = None;
                if left {
                    match grid.grid.get_mut_data_at_position(&collapse_position) {
                        Some(to_collapse) => {
                            if to_collapse.has_compatible_options() {
                                proof {
                                    to_collapse.lemma_weight_positive(&grid.option_data);
                                }
                                to_collapse.collapse_basic(rng, &grid.option_data);
                                collapsed = to_collapse.collapse_idx();
                            }
                        },
                        None => {},
                    }
                }
                let collapsed_idx: usize = match collapsed {
                    Some(option_idx) => option_idx,
                    None => {
                        proof {
                            assert(grid.grid.tiles@ =~= purged.tiles@);
                            assert(positions@.contains(collapse_position));
                            assert(spec_collapses(&grid.grid, &grid.option_data, positions@, events));
                            lemma_notified::<D, S>(old(self).subscriber, started, events, self.subscriber);
                            assert(spec_in_order::<D, P>(&procession, events));
                            lemma_purged_same_cells(&grid.grid, &purged, &grid.option_data, positions@);
                            assert(!full);
                            assert forall|o: int|
                                0 <= o < grid.option_data.spec_option_count() implies !(grid.grid.spec_at(
                                collapse_position,
                            )->0.ways_to_be_option.spec_possible(o) && #[trigger] spec_compatible(
                                &grid.grid,
                                &grid.option_data,
                                collapse_position,
                                o,
                            )) by {
                                if !left {
                                    assert(grid.grid.tiles@ =~= unpurged.tiles@);
                                    assert(!spec_compatible(
                                        &unpurged,
                                        &grid.option_data,
                                        collapse_position,
                                        o,
                                    ));
                                    lemma_compatible_same_cells(
                                        &grid.grid,
                                        &unpurged,
                                        &grid.option_data,
                                        collapse_position,
                                        o,
                                    );
                                }
                            }
                            if grid.option_data.spec_symmetric() {
                                lemma_consistent_same_cells(
                                    &grid.grid,
                                    &purged,
                                    &grid.option_data,
                                    positions@,
                                );
                            }
                        }
                        return Err(
                            CollapseError::new(collapse_position, CollapseErrorKind::Collapse, iter),
                        );
                    },
                };
                proof {
                    let cell = grid.grid.tiles@[at]->0;
                    assert(grid.grid.tiles@ == purged.tiles@.update(at, Some(cell)));
                    assert forall|o: int|
                        0 <= o < grid.grid.tiles@.len() && grid.grid.tiles@[o] is Some implies (
                    #[trigger] grid.grid.tiles@[o])->0.wf(&grid.option_data) by {
                        if o != at {
                            assert(grid.grid.tiles@[o] == purged.tiles@[o]);
                        }
                    }
                    assert(spec_run_from::<D>(&size, grid.grid.tiles@, old(grid).grid.tiles@, positions@)) by {
                        assert forall|o: int|
                            0 <= o < old(grid).grid.tiles@.len() implies if spec_listed::<D>(
                            &size,
                            positions@,
                            o,
                        ) {
                            (#[trigger] grid.grid.tiles@[o]) is Some
                        } else {
                            grid.grid.tiles@[o] == if old(grid).grid.tiles@[o] is Some && old(grid).grid.tiles@[o]->0.collapsed_option is Some {
                                old(grid).grid.tiles@[o]
                            } else {
                                None
                            }
                        } by {
                            if o != at {
                                assert(grid.grid.tiles@[o] == purged.tiles@[o]);
                            }
                        }
                    }
                    assert forall|k: int| 0 <= k < positions@.len() implies pending.spec_contains(
                        #[trigger] positions@[k],
                    ) || grid.grid.spec_at(positions@[k])->0.collapsed_option is Some by {
                        size.lemma_offset_in_range(&positions@[k]);
                        if positions@[k] != collapse_position {
                            crate::collapse::grid::lemma_other_position(
                                &purged,
                                &grid.grid,
                                collapse_position,
                                positions@[k],
                            );
                            assert(start_queue.spec_contains(positions@[k]) || unpurged.spec_at(
                                positions@[k],
                            )->0.collapsed_option is Some);
                            assert(unpurged.tiles@[size.spec_offset(&positions@[k]) as int] is Some);
                        }
                    }
                    lemma_collapsed_listed_grows::<D>(
                        &size,
                        purged.tiles@,
                        grid.grid.tiles@,
                        positions@,
                        at,
                        cells as int,
                    );
                    lemma_collapses_grow(
                        &grid.grid,
                        &purged,
                        &grid.option_data,
                        positions@,
                        events,
                        collapse_position,
                        grid.option_data.ids@[collapsed_idx as int],
                    );
                    if grid.option_data.spec_symmetric() {
                        lemma_collapse_consistent(
                            &grid.grid,
                            &purged,
                            &unpurged,
                            &grid.option_data,
                            positions@,
                            collapse_position,
                            collapsed_idx,
                        );
                    }
                }
                let ghost collapsed_grid = grid.grid;
                purge_options_for_neighbours(
                    &mut grid.grid,
                    collapsed_idx,
                    &collapse_position,
                    &grid.option_data,
                );
                proof {
                    lemma_run_continues(
                        &size,
                        grid.grid,
                        collapsed_grid,
                        old(grid).grid.tiles@,
                        positions@,
                    );
                    if grid.option_data.spec_symmetric() {
                        lemma_consistent_continues(
                            &grid.grid,
                            &collapsed_grid,
                            &grid.option_data,
                            positions@,
                        );
                    }
                    lemma_collapsed_listed_same::<D>(
                        &size,
                        grid.grid.tiles@,
                        collapsed_grid.tiles@,
                        positions@,
                        cells as int,
                    );
                    lemma_purged_after(
                        &grid.grid,
                        &collapsed_grid,
                        &purged,
                        &grid.option_data,
                        positions@,
                        collapse_position,
                        collapsed_idx,
                    );
                    assert forall|k: int| 0 <= k < positions@.len() implies pending.spec_contains(
                        #[trigger] positions@[k],
                    ) || grid.grid.spec_at(positions@[k])->0.collapsed_option is Some by {
                        size.lemma_offset_in_range(&positions@[k]);
                    }
                }
                let ghost told_before = self.subscriber;
                let ghost events_before = events;
                self.notify_collapse(&collapse_position, grid.option_data.ids[collapsed_idx]);
                proof {
                    let tile_type_id = grid.option_data.ids@[collapsed_idx as int];
                    events = events_before.push((collapse_position, tile_type_id));
                    lemma_collapses_continue(
                        &grid.grid,
                        &collapsed_grid,
                        &grid.option_data,
                        positions@,
                        events,
                    );
                    if self.subscriber is Some {
                        lemma_told_more::<D, S>(
                            started,
                            events_before,
                            told_before->0,
                            collapse_position,
                            tile_type_id,
                            self.subscriber->0,
                        );
                    }
                    assert(start_queue.spec_contains(collapse_position));
                    assert forall|i: int, j: int| 0 <= i < j < events.len() implies procession.spec_before(
                        (#[trigger] events[i]).0,
                        (#[trigger] events[j]).0,
                    ) by {
                        assert(events[i] == events_before[i]);
                        if j < events_before.len() {
                            assert(events[j] == events_before[j]);
                        }
                    }
                    assert forall|k: int, p: D::Pos|
                        0 <= k < events.len() && #[trigger] pending.spec_contains(
                            p,
                        ) implies procession.spec_before((#[trigger] events[k]).0, p) by {
                        assert(start_queue.spec_contains(p));
                        if k < events_before.len() {
                            assert(events[k] == events_before[k]);
                        }
                    }
                    lemma_fewer_options_all(&grid.grid, &collapsed_grid, &grid.option_data);
                    assert forall|o: int|
                        0 <= o < grid.grid.tiles@.len() && (#[trigger] grid.grid.tiles@[o]) is Some
                            && grid.grid.tiles@[o]->0.collapsed_option is None implies grid.grid.tiles@[o]->0.num_options
                        <= grid.option_data.possible_options_count by {
                        assert(collapsed_grid.tiles@[o] is Some);
                        assert(collapsed_grid.tiles@[o]->0.collapsed_option is None);
                        assert(o != at);
                        assert(collapsed_grid.tiles@[o] == purged.tiles@[o]);
                    }
                    if full {
                        assert forall|o: int|
                            0 <= o < grid.grid.tiles@.len() && (#[trigger] grid.grid.tiles@[o]) is Some
                                && grid.grid.tiles@[o]->0.collapsed_option is None implies grid.grid.tiles@[o]->0.num_options
                            == grid.option_data.possible_options_count by {
                            assert(collapsed_grid.tiles@[o] is Some);
                            assert(collapsed_grid.tiles@[o]->0.collapsed_option is None);
                            assert(o != at);
                            assert(collapsed_grid.tiles@[o] == purged.tiles@[o]);
                            assert(purged.tiles@[o] == unpurged.tiles@[o]);
                            lemma_same_options(
                                &grid.grid.tiles@[o]->0,
                                &collapsed_grid.tiles@[o]->0,
                                &grid.option_data,
                            );
                        }
                    }
                }
                iter = iter + 1;
            } else {
                proof {
                    assert forall|k: int| 0 <= k < positions@.len() implies pending.spec_contains(
                        #[trigger] positions@[k],
                    ) || grid.grid.spec_at(positions@[k])->0.collapsed_option is Some by {
                        size.lemma_offset_in_range(&positions@[k]);
                    }
                    assert forall|k: int, p: D::Pos|
                        0 <= k < events.len() && #[trigger] pending.spec_contains(
                            p,
                        ) implies procession.spec_before((#[trigger] events[k]).0, p) by {
                        assert(start_queue.spec_contains(p));
                    }
                }
            }
        }
    }
}

/// Whether the cell is as a cell is that no neighbour has constrained yet:
/// it is not collapsed, and its ways are those of the table of options.
pub open spec fn spec_fresh<D: Dimensionality>(
    cell: &CollapsibleTile<D>,
    table: &PerOptionData<D>,
) -> bool {
    &&& cell.collapsed_option is None
    &&& forall|i: int|
        0 <= i < table.spec_option_count() ==> (#[trigger] cell.ways_to_be_option.table@[i])@
            == table.ways_to_be_option.table@[i]@
}

/// Whether no two items are the removal of one option from one cell.
pub open spec fn spec_no_item_twice<D: Dimensionality>(
    size: &D::Size,
    items: Seq<PropagateItem<D>>,
) -> bool {
    forall|a: int, b: int|
        0 <= a < b < items.len() ==> !(size.spec_offset(&(#[trigger] items[a]).position)
            == size.spec_offset(&(#[trigger] items[b]).position) && items[a].to_remove
            == items[b].to_remove)
}

/// Whether the items hold the removal of every option but its own from the
/// collapsed cell at offset `at`.
pub open spec fn spec_seeded<D: Dimensionality>(
    grid: &GridMap<D, CollapsibleTile<D>>,
    items: Seq<PropagateItem<D>>,
    table: &PerOptionData<D>,
    at: int,
) -> bool {
    forall|i: int|
        0 <= i < table.spec_option_count() && i != grid.tiles@[at]->0.collapsed_option->0
            ==> #[trigger] crate::collapse::support::spec_pending(items, &grid.size, at, i)
}

/// Whether the neighbour of a position in the direction of index
/// `direction`, if it is a collapsed cell and stands at none of the
/// positions, has the removal of every option but its own among the items.
pub open spec fn spec_seeded_beside<D: Dimensionality>(
    grid: &GridMap<D, CollapsibleTile<D>>,
    items: Seq<PropagateItem<D>>,
    table: &PerOptionData<D>,
    positions: Seq<D::Pos>,
    position: D::Pos,
    direction: int,
) -> bool {
    let to = D::Dir::spec_from_idx(direction as nat).spec_march_step(&position, &grid.size);
    to is Some && grid.spec_at(to->0) is Some && grid.spec_at(to->0)->0.collapsed_option is Some
        && !spec_listed::<D>(&grid.size, positions, grid.size.spec_offset(&to->0) as int)
        ==> spec_seeded(grid, items, table, grid.size.spec_offset(&to->0) as int)
}

/// Whether the neighbour of a position in the direction of index
/// `direction`, if it is a collapsed cell, is marked.
pub open spec fn spec_marked_beside<D: Dimensionality>(
    grid: &GridMap<D, CollapsibleTile<D>>,
    positions: Seq<D::Pos>,
    marks: Seq<bool>,
    position: D::Pos,
    direction: int,
) -> bool {
    let to = D::Dir::spec_from_idx(direction as nat).spec_march_step(&position, &grid.size);
    to is Some && grid.tiles@[grid.size.spec_offset(&to->0) as int] is Some
        && grid.tiles@[grid.size.spec_offset(&to->0) as int]->0.collapsed_option is Some
        ==> marks[grid.size.spec_offset(&to->0) as int]
}

/// Whether the items and the marks agree: every cell at one of the positions
/// is marked; every other marked cell, but for the one at offset `open`, is
/// collapsed and has the removal of every option but its own among the
/// items; every item belongs to a marked, collapsed cell that stands at none
/// of the positions, and removes an option other than that of its cell; and
/// no item is there twice.
pub open spec fn spec_items_marked<D: Dimensionality>(
    grid: &GridMap<D, CollapsibleTile<D>>,
    items: Seq<PropagateItem<D>>,
    table: &PerOptionData<D>,
    positions: Seq<D::Pos>,
    marks: Seq<bool>,
    open: int,
) -> bool {
    &&& forall|at: int|
        0 <= at < grid.tiles@.len() && spec_listed::<D>(&grid.size, positions, at) ==> #[trigger] marks[at]
    &&& forall|at: int|
        0 <= at < grid.tiles@.len() && #[trigger] marks[at] && at != open && !spec_listed::<D>(
            &grid.size,
            positions,
            at,
        ) ==> grid.tiles@[at] is Some && grid.tiles@[at]->0.collapsed_option is Some && spec_seeded(
            grid,
            items,
            table,
            at,
        )
    &&& forall|k: int|
        0 <= k < items.len() ==> {
            let at = grid.size.spec_offset(&(#[trigger] items[k]).position) as int;
            &&& grid.size.spec_valid(&items[k].position)
            &&& items[k].to_remove < table.spec_option_count()
            &&& marks[at]
            &&& !spec_listed::<D>(&grid.size, positions, at)
            &&& grid.tiles@[at] is Some
            &&& grid.tiles@[at]->0.collapsed_option is Some
            &&& grid.tiles@[at]->0.collapsed_option->0 != items[k].to_remove
        }
    &&& spec_no_item_twice(&grid.size, items)
}

/// What waits on a work list waits on every work list that begins with it.
pub proof fn lemma_pending_grows<D: Dimensionality>(
    size: &D::Size,
    before: Seq<PropagateItem<D>>,
    after: Seq<PropagateItem<D>>,
    at: int,
    option: int,
)
    requires
        before.len() <= after.len(),
        after.take(before.len() as int) == before,
        crate::collapse::support::spec_pending(before, size, at, option),
    ensures
        crate::collapse::support::spec_pending(after, size, at, option),
{
    let k = choose|k: int|
        0 <= k < before.len() && size.spec_offset(&(#[trigger] before[k]).position) == at
            && before[k].to_remove == option;
    assert(after.take(before.len() as int)[k] == after[k]);
}

/// One more option of the cell at offset `open` has been looked at, and its
/// removal put among the items unless it is the option of the cell: the
/// items and the marks still agree.
pub proof fn lemma_items_marked_push<D: Dimensionality>(
    grid: &GridMap<D, CollapsibleTile<D>>,
    before: Seq<PropagateItem<D>>,
    after: Seq<PropagateItem<D>>,
    table: &PerOptionData<D>,
    positions: Seq<D::Pos>,
    marks: Seq<bool>,
    open: int,
    position: D::Pos,
    option: usize,
)
    requires
        grid.wf(),
        spec_items_marked(grid, before, table, positions, marks, open),
        grid.size.spec_valid(&position),
        grid.size.spec_offset(&position) == open,
        0 <= open < grid.tiles@.len(),
        marks[open],
        !spec_listed::<D>(&grid.size, positions, open),
        grid.tiles@[open] is Some,
        grid.tiles@[open]->0.collapsed_option is Some,
        0 <= option < table.spec_option_count(),
        forall|k: int|
            0 <= k < before.len() && grid.size.spec_offset(&(#[trigger] before[k]).position) == open
                ==> before[k].to_remove < option,
        after == if option != grid.tiles@[open]->0.collapsed_option->0 {
            before.push(PropagateItem { position, to_remove: option })
        } else {
            before
        },
    ensures
        spec_items_marked(grid, after, table, positions, marks, open),
        forall|k: int|
            0 <= k < after.len() && grid.size.spec_offset(&(#[trigger] after[k]).position) == open
                ==> after[k].to_remove < option + 1,
        before.len() <= after.len(),
        after.take(before.len() as int) == before,
{
    assert(after.take(before.len() as int) =~= before);
    assert forall|at: int|
        0 <= at < grid.tiles@.len() && #[trigger] marks[at] && at != open && !spec_listed::<D>(
            &grid.size,
            positions,
            at,
        ) implies grid.tiles@[at] is Some && grid.tiles@[at]->0.collapsed_option is Some
        && spec_seeded(grid, after, table, at) by {
        assert(spec_seeded(grid, before, table, at));
        assert forall|i: int|
            0 <= i < table.spec_option_count() && i != grid.tiles@[at]->0.collapsed_option->0 implies #[trigger] crate::collapse::support::spec_pending(
            after,
            &grid.size,
            at,
            i,
        ) by {
            lemma_pending_grows(&grid.size, before, after, at, i);
        }
    }
    assert forall|a: int, b: int| 0 <= a < b < after.len() implies !(grid.size.spec_offset(
        &(#[trigger] after[a]).position,
    ) == grid.size.spec_offset(&(#[trigger] after[b]).position) && after[a].to_remove
        == after[b].to_remove) by {
        if b < before.len() {
            assert(after[a] == before[a] && after[b] == before[b]);
        } else {
            assert(after[a] == before[a]);
            if grid.size.spec_offset(&before[a].position) == open {
                assert(before[a].to_remove < option);
            }
        }
    }
    assert forall|k: int|
        0 <= k < after.len() && grid.size.spec_offset(&(#[trigger] after[k]).position)
            == open implies after[k].to_remove < option + 1 by {
        if k < before.len() {
            assert(after[k] == before[k]);
            assert(before[k].to_remove < option);
        }
    }
    assert forall|k: int| 0 <= k < after.len() implies {
        let at = grid.size.spec_offset(&(#[trigger] after[k]).position) as int;
        &&& grid.size.spec_valid(&after[k].position)
        &&& after[k].to_remove < table.spec_option_count()
        &&& marks[at]
        &&& !spec_listed::<D>(&grid.size, positions, at)
        &&& grid.tiles@[at] is Some
        &&& grid.tiles@[at]->0.collapsed_option is Some
        &&& grid.tiles@[at]->0.collapsed_option->0 != after[k].to_remove
    } by {
        if k < before.len() {
            assert(after[k] == before[k]);
        }
    }
}

/// A collapsed cell that no item belongs to yet has been marked, and its
/// removals are about to be put among the items: the items and the marks
/// agree but for that cell.
pub proof fn lemma_items_marked_open<D: Dimensionality>(
    grid: &GridMap<D, CollapsibleTile<D>>,
    items: Seq<PropagateItem<D>>,
    table: &PerOptionData<D>,
    positions: Seq<D::Pos>,
    before: Seq<bool>,
    after: Seq<bool>,
    open: int,
)
    requires
        grid.wf(),
        spec_items_marked(grid, items, table, positions, before, -1),
        before.len() == grid.tiles@.len(),
        0 <= open < before.len(),
        after == before.update(open, true),
    ensures
        spec_items_marked(grid, items, table, positions, after, open),
{
    assert forall|k: int| 0 <= k < items.len() implies {
        let at = grid.size.spec_offset(&(#[trigger] items[k]).position) as int;
        &&& grid.size.spec_valid(&items[k].position)
        &&& items[k].to_remove < table.spec_option_count()
        &&& after[at]
        &&& !spec_listed::<D>(&grid.size, positions, at)
        &&& grid.tiles@[at] is Some
        &&& grid.tiles@[at]->0.collapsed_option is Some
        &&& grid.tiles@[at]->0.collapsed_option->0 != items[k].to_remove
    } by {
        grid.size.lemma_offset_in_range(&items[k].position);
    }
}

/// Marks are never taken back: a neighbour that was marked stays marked,
/// and the neighbour that has just been looked at is marked if it is a
/// collapsed cell.
pub proof fn lemma_marks_grow<D: Dimensionality>(
    grid: &GridMap<D, CollapsibleTile<D>>,
    positions: Seq<D::Pos>,
    before: Seq<bool>,
    after: Seq<bool>,
    index: int,
    direction: int,
)
    requires
        grid.wf(),
        0 <= index < positions.len(),
        0 <= direction < D::Dir::spec_count(),
        before.len() == after.len(),
        before.len() == grid.tiles@.len(),
        forall|k: int| 0 <= k < positions.len() ==> grid.size.spec_valid(&#[trigger] positions[k]),
        forall|at: int| 0 <= at < before.len() && before[at] ==> after[at],
        spec_marked_beside(grid, positions, after, positions[index], direction),
        forall|k: int, e: int|
            0 <= k < index && 0 <= e < D::Dir::spec_count() ==> #[trigger] spec_marked_beside(
                grid,
                positions,
                before,
                positions[k],
                e,
            ),
        forall|e: int|
            0 <= e < direction ==> #[trigger] spec_marked_beside(
                grid,
                positions,
                before,
                positions[index],
                e,
            ),
    ensures
        forall|k: int, e: int|
            0 <= k < index && 0 <= e < D::Dir::spec_count() ==> #[trigger] spec_marked_beside(
                grid,
                positions,
                after,
                positions[k],
                e,
            ),
        forall|e: int|
            0 <= e < direction + 1 ==> #[trigger] spec_marked_beside(
                grid,
                positions,
                after,
                positions[index],
                e,
            ),
{
    assert forall|k: int, e: int|
        0 <= k < index && 0 <= e < D::Dir::spec_count() implies #[trigger] spec_marked_beside(
        grid,
        positions,
        after,
        positions[k],
        e,
    ) by {
        assert(spec_marked_beside(grid, positions, before, positions[k], e));
        let to = D::Dir::spec_from_idx(e as nat).spec_march_step(&positions[k], &grid.size);
        if to is Some {
            D::Dir::spec_from_idx(e as nat).lemma_march_step_back(&positions[k], &grid.size);
            grid.size.lemma_offset_in_range(&to->0);
        }
    }
    assert forall|e: int| 0 <= e < direction + 1 implies #[trigger] spec_marked_beside(
        grid,
        positions,
        after,
        positions[index],
        e,
    ) by {
        if e < direction {
            assert(spec_marked_beside(grid, positions, before, positions[index], e));
            let to = D::Dir::spec_from_idx(e as nat).spec_march_step(&positions[index], &grid.size);
            if to is Some {
                D::Dir::spec_from_idx(e as nat).lemma_march_step_back(&positions[index], &grid.size);
                grid.size.lemma_offset_in_range(&to->0);
            }
        }
    }
}

/// At the start of a run the account of ways is in order, where each rule of
/// the table has its mirror image and something may stand beside every
/// option in every direction: the fresh cells count all options of their
/// neighbours, and the collapsed cells around them have the removal of all
/// options but their own on the work list.
pub proof fn lemma_initial_order<D: Dimensionality>(
    grid: &GridMap<D, CollapsibleTile<D>>,
    items: Seq<PropagateItem<D>>,
    table: &PerOptionData<D>,
    positions: Seq<D::Pos>,
)
    requires
        table.wf(),
        table.spec_symmetric(),
        crate::collapse::support::spec_all_possible(table),
        spec_cells_wf(grid, table),
        forall|k: int| 0 <= k < positions.len() ==> grid.size.spec_valid(&#[trigger] positions[k]),
        forall|at: int|
            0 <= at < grid.tiles@.len() ==> if spec_listed::<D>(&grid.size, positions, at) {
                (#[trigger] grid.tiles@[at]) is Some && spec_fresh(&grid.tiles@[at]->0, table)
            } else {
                grid.tiles@[at] is Some ==> grid.tiles@[at]->0.collapsed_option is Some
            },
        spec_items_ok(items, &grid.size, table),
        forall|k: int|
            0 <= k < items.len() ==> {
                let cell = grid.spec_at((#[trigger] items[k]).position);
                &&& cell is Some
                &&& cell->0.collapsed_option is Some
                &&& cell->0.collapsed_option->0 != items[k].to_remove
            },
        spec_no_item_twice(&grid.size, items),
        forall|k: int, e: int|
            0 <= k < positions.len() && 0 <= e < D::Dir::spec_count() ==> #[trigger] spec_seeded_beside(
                grid,
                items,
                table,
                positions,
                positions[k],
                e,
            ),
    ensures
        crate::collapse::support::spec_tracking(
            grid,
            items,
            table,
            crate::collapse::support::spec_no_flight(),
        ),
{
    let size = grid.size;
    let none = crate::collapse::support::spec_no_flight();
    let options = table.spec_option_count() as int;
    D::Dir::spec_from_idx(0).lemma_idx();
    assert forall|at: int, direction: int, option: int|
        0 <= at < grid.tiles@.len() && 0 <= direction < D::Dir::spec_count() && 0 <= option
            < options implies #[trigger] crate::collapse::support::spec_entry_ok(
        grid,
        items,
        table,
        none,
        at,
        direction,
        option,
    ) by {
        let dir = D::Dir::spec_from_idx(direction as nat);
        let pos = size.spec_pos_from_offset(at as nat);
        size.lemma_offset_of_pos_from_offset(at as nat);
        let to = dir.spec_march_step(&pos, &size);
        let cell = grid.tiles@[at];
        if cell is Some && cell->0.collapsed_option is None
            && cell->0.ways_to_be_option.spec_possible(option) && to is Some {
            dir.lemma_march_step_back(&pos, &size);
            let to_at = size.spec_offset(&to->0) as int;
            size.lemma_offset_in_range(&to->0);
            // the cell is fresh, and so it stands at one of the positions
            assert(spec_listed::<D>(&size, positions, at));
            let k = choose|k: int| 0 <= k < positions.len() && size.spec_offset(&#[trigger] positions[k]) == at;
            size.lemma_pos_from_offset_of_offset(&positions[k]);
            assert(positions[k] == pos);
            assert(spec_seeded_beside(grid, items, table, positions, positions[k], direction));
            assert forall|i: int| 0 <= i < options implies #[trigger] crate::collapse::support::spec_counts(
                grid,
                items,
                none,
                to_at,
                direction,
                i,
            ) by {
                let other = grid.tiles@[to_at];
                if other is Some {
                    if other->0.collapsed_option is None {
                        assert(spec_fresh(&other->0, table));
                        assert(other->0.ways_to_be_option.table@[i]@
                            == table.ways_to_be_option.table@[i]@);
                        assert(table.spec_has_all_neighbours(i));
                        assert(table.ways_to_be_option.spec_ways(i, 0) == table.spec_enabled(
                            i,
                            0,
                        ).len());
                    } else {
                        if other->0.collapsed_option->0 != i {
                            assert(!spec_listed::<D>(&size, positions, to_at));
                            assert(spec_seeded(grid, items, table, to_at));
                        }
                    }
                }
            }
            crate::collapse::support::lemma_supporters_of_all(
                grid,
                items,
                table,
                none,
                to_at,
                direction,
                option,
            );
            assert(spec_fresh(&cell->0, table));
            assert(cell->0.ways_to_be_option.table@[option]@
                == table.ways_to_be_option.table@[option]@);
            assert(table.spec_has_all_neighbours(option));
            assert(table.ways_to_be_option.spec_ways(option, direction) == table.spec_enabled(
                option,
                direction,
            ).len());
        }
    }
    assert(crate::collapse::support::spec_items_due(grid, items)) by {
        assert forall|k: int| 0 <= k < items.len() implies grid.tiles@[size.spec_offset(
            &(#[trigger] items[k]).position,
        ) as int] is Some && !crate::collapse::support::spec_holds(
            grid.tiles@[size.spec_offset(&items[k].position) as int],
            items[k].to_remove as int,
        ) by {
            size.lemma_offset_in_range(&items[k].position);
        }
    }
}

/// Collapsing a cell while the work list is empty, and putting the removal
/// of its other options on the work list, keeps the account of ways in
/// order; and where each rule of the table has its mirror image, it keeps
/// the grid consistent.
pub proof fn lemma_collapse_in_order<D: Dimensionality>(
    before: &GridMap<D, CollapsibleTile<D>>,
    after: &GridMap<D, CollapsibleTile<D>>,
    items: Seq<PropagateItem<D>>,
    table: &PerOptionData<D>,
    positions: Seq<D::Pos>,
    position: D::Pos,
    collapsed: usize,
)
    requires
        table.wf(),
        table.spec_symmetric(),
        spec_cells_wf(before, table),
        after.size == before.size,
        before.size.spec_valid(&position),
        positions.contains(position),
        collapsed < table.spec_option_count(),
        crate::collapse::support::spec_tracking(
            before,
            Seq::<PropagateItem<D>>::empty(),
            table,
            crate::collapse::support::spec_no_flight(),
        ),
        spec_consistent(before, table, positions),
        after.tiles@.len() == before.tiles@.len(),
        forall|at: int|
            0 <= at < before.tiles@.len() && at != before.size.spec_offset(&position)
                ==> after.tiles@[at] == before.tiles@[at],
        before.spec_at(position) is Some,
        before.spec_at(position)->0.collapsed_option is None,
        before.spec_at(position)->0.ways_to_be_option.spec_possible(collapsed as int),
        after.spec_at(position) is Some,
        after.spec_at(position)->0.collapsed_option == Some(collapsed),
        forall|k: int|
            0 <= k < items.len() ==> (#[trigger] items[k]).position == position && items[k].to_remove
                < table.spec_option_count(),
        forall|a: int, b: int|
            0 <= a < b < items.len() ==> (#[trigger] items[a]).to_remove != (
            #[trigger] items[b]).to_remove,
        forall|j: int|
            0 <= j < table.spec_option_count() ==> ((exists|k: int|
                0 <= k < items.len() && (#[trigger] items[k]).to_remove == j) <==> (before.spec_at(
                position,
            )->0.ways_to_be_option.spec_possible(j) && j != collapsed)),
    ensures
        crate::collapse::support::spec_tracking(
            after,
            items,
            table,
            crate::collapse::support::spec_no_flight(),
        ),
        spec_consistent(after, table, positions),
{
    let size = before.size;
    let none = crate::collapse::support::spec_no_flight();
    let empty = Seq::<PropagateItem<D>>::empty();
    let options = table.spec_option_count() as int;
    let p_at = size.spec_offset(&position) as int;
    size.lemma_offset_in_range(&position);
    size.lemma_pos_from_offset_of_offset(&position);
    let cell_b = before.tiles@[p_at]->0;
    assert(cell_b.wf(table));
    D::Dir::spec_from_idx(0).lemma_idx();
    // the same options count at every cell as before
    assert forall|at: int, e: int, i: int|
        0 <= at < before.tiles@.len() && 0 <= i < options implies #[trigger] crate::collapse::support::spec_counts(
        after,
        items,
        none,
        at,
        e,
        i,
    ) == crate::collapse::support::spec_counts(before, empty, none, at, e, i) by {
        assert(!crate::collapse::support::spec_pending(empty, &size, at, i));
        if at != p_at {
            assert(after.tiles@[at] == before.tiles@[at]);
            if crate::collapse::support::spec_pending(items, &size, at, i) {
                let k = choose|k: int|
                    0 <= k < items.len() && size.spec_offset(&(#[trigger] items[k]).position) == at
                        && items[k].to_remove == i;
                assert(items[k].position == position);
            }
        } else {
            if crate::collapse::support::spec_pending(items, &size, at, i) {
                let k = choose|k: int|
                    0 <= k < items.len() && size.spec_offset(&(#[trigger] items[k]).position) == at
                        && items[k].to_remove == i;
                assert(items[k].to_remove == i);
            }
            if cell_b.ways_to_be_option.spec_possible(i) && i != collapsed {
                let k = choose|k: int| 0 <= k < items.len() && (#[trigger] items[k]).to_remove == i;
                assert(items[k].position == position);
            }
        }
    }
    assert forall|at: int, direction: int, option: int|
        0 <= at < after.tiles@.len() && 0 <= direction < D::Dir::spec_count() && 0 <= option
            < options implies #[trigger] crate::collapse::support::spec_entry_ok(
        after,
        items,
        table,
        none,
        at,
        direction,
        option,
    ) by {
        let dir = D::Dir::spec_from_idx(direction as nat);
        let pos = size.spec_pos_from_offset(at as nat);
        size.lemma_offset_of_pos_from_offset(at as nat);
        let to = dir.spec_march_step(&pos, &size);
        if at != p_at && to is Some {
            assert(after.tiles@[at] == before.tiles@[at]);
            assert(crate::collapse::support::spec_entry_ok(
                before,
                empty,
                table,
                none,
                at,
                direction,
                option,
            ));
            dir.lemma_march_step_back(&pos, &size);
            size.lemma_offset_in_range(&to->0);
            crate::collapse::support::lemma_supporters_same(
                before,
                empty,
                none,
                after,
                items,
                none,
                table,
                size.spec_offset(&to->0) as int,
                direction,
                option,
                options,
            );
        }
    }
    assert(crate::collapse::support::spec_items_due(after, items)) by {
        assert forall|k: int| 0 <= k < items.len() implies after.tiles@[size.spec_offset(
            &(#[trigger] items[k]).position,
        ) as int] is Some && !crate::collapse::support::spec_holds(
            after.tiles@[size.spec_offset(&items[k].position) as int],
            items[k].to_remove as int,
        ) by {
            assert(items[k].position == position);
            let j = items[k].to_remove as int;
            assert(exists|m: int| 0 <= m < items.len() && (#[trigger] items[m]).to_remove == j);
        }
    }
    // the collapsed cell agrees with each of its collapsed neighbours
    assert forall|p: D::Pos, d: int|
        size.spec_valid(&p) && 0 <= d < D::Dir::spec_count() && (positions.contains(p) || (
        D::Dir::spec_from_idx(d as nat).spec_march_step(&p, &size) is Some && positions.contains(
            D::Dir::spec_from_idx(d as nat).spec_march_step(&p, &size)->0,
        ))) implies #[trigger] spec_pair_consistent(after, table, p, d) by {
        let dir = D::Dir::spec_from_idx(d as nat);
        let to = dir.spec_march_step(&p, &size);
        D::Dir::lemma_from_idx(d as nat);
        dir.lemma_opposite();
        if to is Some {
            dir.lemma_march_step_back(&p, &size);
            let q = to->0;
            size.lemma_offset_in_range(&p);
            size.lemma_offset_in_range(&q);
            size.lemma_pos_from_offset_of_offset(&p);
            size.lemma_pos_from_offset_of_offset(&q);
            if p == position {
                crate::collapse::grid::lemma_other_position(before, after, position, q);
                if after.spec_at(q) is Some && after.spec_at(q)->0.collapsed_option is Some {
                    let j = after.spec_at(q)->0.collapsed_option->0 as int;
                    let q_at = size.spec_offset(&q) as int;
                    assert(before.tiles@[q_at]->0.wf(table));
                    lemma_supported_by_collapsed(before, table, position, d, collapsed as int);
                    crate::collapse::support::lemma_mirror::<D>(table, collapsed as int, d, j);
                }
            } else if q == position {
                crate::collapse::grid::lemma_other_position(before, after, position, p);
                if after.spec_at(p) is Some && after.spec_at(p)->0.collapsed_option is Some {
                    let i = after.spec_at(p)->0.collapsed_option->0 as int;
                    let back = dir.spec_opposite();
                    back.lemma_idx();
                    back.lemma_opposite();
                    let b = back.spec_idx() as int;
                    D::Dir::lemma_from_idx(back.spec_idx());
                    assert(D::Dir::spec_from_idx(b as nat) == back);
                    assert(back.spec_march_step(&position, &size) == Some(p));
                    lemma_supported_by_collapsed(before, table, position, b, collapsed as int);
                    assert(crate::collapse::support::spec_opposite_idx::<D>(b) == d);
                }
            } else {
                crate::collapse::grid::lemma_other_position(before, after, position, p);
                crate::collapse::grid::lemma_other_position(before, after, position, q);
                assert(spec_pair_consistent(before, table, p, d));
            }
        }
    }
}

/// Where the account of ways is in order and the work list is empty, an
/// option that a cell can become is permitted by the option of each of its
/// collapsed neighbours: the option of the neighbour in the direction of
/// index `direction` permits it on the side of the cell.
pub proof fn lemma_supported_by_collapsed<D: Dimensionality>(
    grid: &GridMap<D, CollapsibleTile<D>>,
    table: &PerOptionData<D>,
    position: D::Pos,
    direction: int,
    option: int,
)
    requires
        table.wf(),
        spec_cells_wf(grid, table),
        grid.size.spec_valid(&position),
        0 <= direction < D::Dir::spec_count(),
        0 <= option < table.spec_option_count(),
        crate::collapse::support::spec_tracking(
            grid,
            Seq::<PropagateItem<D>>::empty(),
            table,
            crate::collapse::support::spec_no_flight(),
        ),
        grid.spec_at(position) is Some,
        grid.spec_at(position)->0.collapsed_option is None,
        grid.spec_at(position)->0.ways_to_be_option.spec_possible(option),
        D::Dir::spec_from_idx(direction as nat).spec_march_step(&position, &grid.size) is Some,
        grid.spec_at(
            D::Dir::spec_from_idx(direction as nat).spec_march_step(&position, &grid.size)->0,
        ) is Some,
        grid.spec_at(
            D::Dir::spec_from_idx(direction as nat).spec_march_step(&position, &grid.size)->0,
        )->0.collapsed_option is Some,
    ensures
        table.spec_allows(
            grid.spec_at(
                D::Dir::spec_from_idx(direction as nat).spec_march_step(&position, &grid.size)->0,
            )->0.collapsed_option->0 as int,
            crate::collapse::support::spec_opposite_idx::<D>(direction),
            option,
        ),
{
    let size = grid.size;
    let none = crate::collapse::support::spec_no_flight();
    let empty = Seq::<PropagateItem<D>>::empty();
    let dir = D::Dir::spec_from_idx(direction as nat);
    let p_at = size.spec_offset(&position) as int;
    size.lemma_offset_in_range(&position);
    size.lemma_pos_from_offset_of_offset(&position);
    dir.lemma_march_step_back(&position, &size);
    let q = dir.spec_march_step(&position, &size)->0;
    let q_at = size.spec_offset(&q) as int;
    size.lemma_offset_in_range(&q);
    let cell = grid.tiles@[p_at]->0;
    assert(cell.wf(table));
    assert(crate::collapse::support::spec_entry_ok(grid, empty, table, none, p_at, direction, option));
    // the row of the option is not zero, so it is positive throughout
    D::Dir::spec_from_idx(0).lemma_idx();
    let row = cell.ways_to_be_option.table@[option]@;
    assert(crate::collapse::option::spec_row_zero(row) || crate::collapse::option::spec_row_positive(
        row,
    ));
    assert(row[0] != 0);
    assert(row[direction] > 0);
    let i = crate::collapse::support::lemma_supporter_exists(
        grid,
        empty,
        table,
        none,
        q_at,
        direction,
        option,
        table.spec_option_count() as int,
    );
    assert(!crate::collapse::support::spec_pending(empty, &size, q_at, i));
}

/// Cells that follow the cells of a run, with the same cells collapsed, are
/// the cells of a run themselves.
pub proof fn lemma_run_continues<D: Dimensionality>(
    size: &D::Size,
    after: GridMap<D, CollapsibleTile<D>>,
    before: GridMap<D, CollapsibleTile<D>>,
    start: Seq<Option<CollapsibleTile<D>>>,
    positions: Seq<D::Pos>,
)
    requires
        spec_cells_follow(&after, &before),
        spec_same_collapsed(&after, &before),
        spec_run_from::<D>(size, before.tiles@, start, positions),
    ensures
        spec_run_from::<D>(size, after.tiles@, start, positions),
{
    assert forall|at: int| 0 <= at < start.len() implies if spec_listed::<D>(size, positions, at) {
        (#[trigger] after.tiles@[at]) is Some
    } else {
        after.tiles@[at] == if start[at] is Some && start[at]->0.collapsed_option is Some {
            start[at]
        } else {
            None
        }
    } by {
        assert(after.tiles@[at] is Some <==> before.tiles@[at] is Some);
    }
}

/// Where a cell that is not collapsed is queued with every other, the queue
/// is not empty.
pub proof fn lemma_failed_listed<D: Dimensionality>(
    size: &D::Size,
    grid: &GridMap<D, CollapsibleTile<D>>,
    queue: &EntrophyQueue<D>,
    positions: Seq<D::Pos>,
    position: D::Pos,
)
    requires
        grid.wf(),
        grid.size == *size,
        queue.wf(),
        spec_all_queued(grid, queue),
        grid.spec_at(position) is Some,
        grid.spec_at(position)->0.collapsed_option is None,
    ensures
        queue.length > 0,
{
    size.lemma_offset_in_range(&position);
    crate::collapse::queue::entrophy::lemma_count_keys_zero(
        queue.by_pos@,
        queue.by_pos@.len() as int,
    );
    assert(queue.by_pos@[size.spec_offset(&position) as int] is Some);
}

/// In a grid whose cells at the positions are all fresh, no pair with a cell
/// at one of the positions has both cells collapsed: every such pair agrees.
pub proof fn lemma_fresh_consistent<D: Dimensionality>(
    grid: &GridMap<D, CollapsibleTile<D>>,
    table: &PerOptionData<D>,
    positions: Seq<D::Pos>,
)
    requires
        grid.wf(),
        forall|k: int| 0 <= k < positions.len() ==> grid.size.spec_valid(&#[trigger] positions[k]),
        forall|at: int|
            0 <= at < grid.tiles@.len() && spec_listed::<D>(&grid.size, positions, at) ==> (
            #[trigger] grid.tiles@[at]) is Some && grid.tiles@[at]->0.collapsed_option is None,
    ensures
        spec_consistent(grid, table, positions),
{
    assert forall|p: D::Pos, d: int|
        grid.size.spec_valid(&p) && 0 <= d < D::Dir::spec_count() && (positions.contains(p) || (
        D::Dir::spec_from_idx(d as nat).spec_march_step(&p, &grid.size) is Some && positions.contains(
            D::Dir::spec_from_idx(d as nat).spec_march_step(&p, &grid.size)->0,
        ))) implies #[trigger] spec_pair_consistent(grid, table, p, d) by {
        let to = D::Dir::spec_from_idx(d as nat).spec_march_step(&p, &grid.size);
        if positions.contains(p) {
            let k = choose|k: int| 0 <= k < positions.len() && positions[k] == p;
            grid.size.lemma_offset_in_range(&p);
            assert(spec_listed::<D>(&grid.size, positions, grid.size.spec_offset(&positions[k]) as int));
        } else {
            let q = to->0;
            let k = choose|k: int| 0 <= k < positions.len() && positions[k] == q;
            assert(grid.size.spec_valid(&positions[k]));
            grid.size.lemma_offset_in_range(&q);
            assert(spec_listed::<D>(&grid.size, positions, grid.size.spec_offset(&positions[k]) as int));
        }
    }
}

/// A grid whose cells follow those of a consistent grid, with the same
/// cells collapsed, is consistent.
pub proof fn lemma_consistent_continues<D: Dimensionality>(
    after: &GridMap<D, CollapsibleTile<D>>,
    before: &GridMap<D, CollapsibleTile<D>>,
    table: &PerOptionData<D>,
    positions: Seq<D::Pos>,
)
    requires
        before.wf(),
        spec_cells_follow(after, before),
        spec_same_collapsed(after, before),
        spec_consistent(before, table, positions),
    ensures
        spec_consistent(after, table, positions),
{
    assert forall|p: D::Pos, d: int|
        after.size.spec_valid(&p) && 0 <= d < D::Dir::spec_count() && (positions.contains(p) || (
        D::Dir::spec_from_idx(d as nat).spec_march_step(&p, &after.size) is Some && positions.contains(
            D::Dir::spec_from_idx(d as nat).spec_march_step(&p, &after.size)->0,
        ))) implies #[trigger] spec_pair_consistent(after, table, p, d) by {
        assert(spec_pair_consistent(before, table, p, d));
        let to = D::Dir::spec_from_idx(d as nat).spec_march_step(&p, &after.size);
        before.size.lemma_offset_in_range(&p);
        if to is Some && before.size.spec_valid(&to->0) {
            before.size.lemma_offset_in_range(&to->0);
        }
    }
}

/// A grid that holds the cells of a consistent grid is consistent.
pub proof fn lemma_consistent_same_cells<D: Dimensionality>(
    after: &GridMap<D, CollapsibleTile<D>>,
    before: &GridMap<D, CollapsibleTile<D>>,
    table: &PerOptionData<D>,
    positions: Seq<D::Pos>,
)
    requires
        after.size == before.size,
        after.tiles@ == before.tiles@,
        spec_consistent(before, table, positions),
    ensures
        spec_consistent(after, table, positions),
{
    assert forall|p: D::Pos, d: int|
        after.size.spec_valid(&p) && 0 <= d < D::Dir::spec_count() && (positions.contains(p) || (
        D::Dir::spec_from_idx(d as nat).spec_march_step(&p, &after.size) is Some && positions.contains(
            D::Dir::spec_from_idx(d as nat).spec_march_step(&p, &after.size)->0,
        ))) implies #[trigger] spec_pair_consistent(after, table, p, d) by {
        assert(spec_pair_consistent(before, table, p, d));
    }
}

/// Collapsing a cell to an option that its neighbours left to it keeps a
/// grid consistent, where each rule of the table has its mirror image.
pub proof fn lemma_collapse_consistent<D: Dimensionality>(
    after: &GridMap<D, CollapsibleTile<D>>,
    purged: &GridMap<D, CollapsibleTile<D>>,
    unpurged: &GridMap<D, CollapsibleTile<D>>,
    table: &PerOptionData<D>,
    positions: Seq<D::Pos>,
    position: D::Pos,
    collapsed: usize,
)
    requires
        table.wf(),
        table.spec_symmetric(),
        spec_cells_wf(unpurged, table),
        purged.wf(),
        after.wf(),
        after.size == purged.size,
        purged.size == unpurged.size,
        purged.size.spec_valid(&position),
        collapsed < table.spec_option_count(),
        spec_consistent(purged, table, positions),
        forall|at: int|
            0 <= at < unpurged.tiles@.len() && at != unpurged.size.spec_offset(&position)
                ==> purged.tiles@[at] == unpurged.tiles@[at],
        forall|at: int|
            0 <= at < purged.tiles@.len() && at != purged.size.spec_offset(&position)
                ==> after.tiles@[at] == purged.tiles@[at],
        unpurged.spec_at(position) is Some,
        purged.spec_at(position) is Some,
        purged.spec_at(position)->0.ways_to_be_option.spec_possible(collapsed as int),
        forall|o: int|
            0 <= o < table.spec_option_count() ==> (#[trigger] purged.spec_at(
                position,
            )->0.ways_to_be_option.spec_possible(o) ==> spec_compatible(unpurged, table, position, o)),
        after.spec_at(position) is Some,
        after.spec_at(position)->0.collapsed_option == Some(collapsed),
    ensures
        spec_consistent(after, table, positions),
{
    let size = after.size;
    size.lemma_offset_in_range(&position);
    assert(spec_compatible(unpurged, table, position, collapsed as int));
    assert forall|p: D::Pos, d: int|
        size.spec_valid(&p) && 0 <= d < D::Dir::spec_count() && (positions.contains(p) || (
        D::Dir::spec_from_idx(d as nat).spec_march_step(&p, &size) is Some && positions.contains(
            D::Dir::spec_from_idx(d as nat).spec_march_step(&p, &size)->0,
        ))) implies #[trigger] spec_pair_consistent(after, table, p, d) by {
        let dir = D::Dir::spec_from_idx(d as nat);
        let to = dir.spec_march_step(&p, &size);
        D::Dir::lemma_from_idx(d as nat);
        dir.lemma_opposite();
        dir.spec_opposite().lemma_idx();
        dir.lemma_idx();
        if to is Some {
            dir.lemma_march_step_back(&p, &size);
            let q = to->0;
            size.lemma_offset_in_range(&p);
            size.lemma_offset_in_range(&q);
            if p == position {
                // the neighbour in this direction left the option to the cell
                assert(spec_left_by_neighbour(unpurged, table, position, dir, collapsed as int));
                crate::collapse::grid::lemma_other_position(unpurged, purged, position, q);
                crate::collapse::grid::lemma_other_position(purged, after, position, q);
                if after.spec_at(q) is Some && after.spec_at(q)->0.collapsed_option is Some {
                    let j = after.spec_at(q)->0.collapsed_option->0 as int;
                    assert(unpurged.spec_neighbour(position, dir) == unpurged.spec_at(q));
                    let back = dir.spec_opposite();
                    assert(unpurged.tiles@[size.spec_offset(&q) as int]->0.wf(table));
                    assert(table.spec_allows(j, back.spec_idx() as int, collapsed as int));
                    D::Dir::lemma_from_idx(back.spec_idx());
                    back.lemma_idx();
                    back.lemma_opposite();
                    assert(D::Dir::spec_from_idx(back.spec_idx()) == back);
                    assert(back.spec_opposite() == dir);
                    assert(table.spec_allows(collapsed as int, d, j));
                }
            } else if q == position {
                let back = dir.spec_opposite();
                assert(back.spec_march_step(&position, &size) == Some(p));
                D::Dir::lemma_from_idx(back.spec_idx());
                back.lemma_idx();
                back.lemma_opposite();
                let bi: int = back.spec_idx() as int;
                assert(spec_left_by_neighbour(
                    unpurged,
                    table,
                    position,
                    D::Dir::spec_from_idx(bi as nat),
                    collapsed as int,
                ));
                assert(D::Dir::spec_from_idx(bi as nat) == back);
                crate::collapse::grid::lemma_other_position(unpurged, purged, position, p);
                crate::collapse::grid::lemma_other_position(purged, after, position, p);
                if after.spec_at(p) is Some && after.spec_at(p)->0.collapsed_option is Some {
                    let i = after.spec_at(p)->0.collapsed_option->0 as int;
                    assert(unpurged.spec_neighbour(position, back) == unpurged.spec_at(p));
                    assert(back.spec_opposite() == dir);
                    assert(table.spec_allows(i, d, collapsed as int));
                }
            } else {
                crate::collapse::grid::lemma_other_position(purged, after, position, p);
                crate::collapse::grid::lemma_other_position(purged, after, position, q);
                assert(spec_pair_consistent(purged, table, p, d));
            }
        }
    }
}

} // verus!
