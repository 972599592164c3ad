//! The account of ways: why the counts of ways of a cell are what they are.
//!
//! The number of ways in which a cell can be an option from a direction is
//! the number of options that still count at its neighbour in that direction
//! and that permit the option beside them. An option counts at a cell as
//! long as the cell can become it, or is collapsed to it, or its removal
//! from the cell waits on the work list; at an empty place every option
//! counts.

use vstd::prelude::*;
use crate::collapse::queue::propagator::PropagateItem;
use crate::collapse::table::PerOptionData;
use crate::collapse::table::spec_increasing;
use crate::collapse::tile::CollapsibleTile;
use crate::dimension::Dimensionality;
use crate::direction::Direction;
use crate::map::GridMap;
use crate::position::GridPosition;
use crate::size::GridSize;

verus! {

/// An item of the work list that has been taken off it and is being worked
/// on: the offset of its cell, its option, and the number of directions in
/// which its removal has been taken into account already. A negative offset
/// stands for no item.
pub struct Flight {
    pub at: int,
    pub option: int,
    pub done: int,
}

/// No item in flight.
pub open spec fn spec_no_flight() -> Flight {
    Flight { at: -1, option: 0, done: 0 }
}

/// Index of the direction opposite to the direction of index `direction`.
pub open spec fn spec_opposite_idx<D: Dimensionality>(direction: int) -> int {
    D::Dir::spec_from_idx(direction as nat).spec_opposite().spec_idx() as int
}

/// Whether the removal of the option from the cell at offset `at` waits on
/// the work list.
pub open spec fn spec_pending<D: Dimensionality>(
    items: Seq<PropagateItem<D>>,
    size: &D::Size,
    at: int,
    option: int,
) -> bool {
    exists|k: int|
        0 <= k < items.len() && size.spec_offset(&(#[trigger] items[k]).position) == at
            && items[k].to_remove == option
}

/// Whether the cell itself still holds the option: it can become it, or is
/// collapsed to it. An empty place holds every option.
pub open spec fn spec_holds<D: Dimensionality>(cell: Option<CollapsibleTile<D>>, option: int) -> bool {
    match cell {
        None => true,
        Some(cell) => match cell.collapsed_option {
            Some(collapsed) => collapsed == option,
            None => cell.ways_to_be_option.spec_possible(option),
        },
    }
}

/// Whether the option still counts at the cell at offset `at`, for the
/// neighbour that has the cell in the direction of index `direction`.
pub open spec fn spec_counts<D: Dimensionality>(
    grid: &GridMap<D, CollapsibleTile<D>>,
    items: Seq<PropagateItem<D>>,
    flight: Flight,
    at: int,
    direction: int,
    option: int,
) -> bool {
    ||| spec_holds(grid.tiles@[at], option)
    ||| spec_pending(items, &grid.size, at, option)
    ||| (flight.at == at && flight.option == option && direction >= flight.done)
}

/// Number of the first `n` options that count at the cell at offset `at`
/// and permit the option `option` beside them, on the side of the neighbour
/// that has the cell in the direction of index `direction`.
pub open spec fn spec_supporters<D: Dimensionality>(
    grid: &GridMap<D, CollapsibleTile<D>>,
    items: Seq<PropagateItem<D>>,
    table: &PerOptionData<D>,
    flight: Flight,
    at: int,
    direction: int,
    option: int,
    n: int,
) -> int
    decreases n,
{
    if n <= 0 {
        0
    } else {
        spec_supporters(grid, items, table, flight, at, direction, option, n - 1) + if spec_counts(
            grid,
            items,
            flight,
            at,
            direction,
            n - 1,
        ) && table.spec_allows(n - 1, spec_opposite_idx::<D>(direction), option) {
            1int
        } else {
            0int
        }
    }
}

/// Whether the count of ways of the cell at offset `at` to be the option
/// from the direction is right: it is the number of supporters of the option
/// at the neighbour of the cell in that direction. Nothing is asked of a
/// place that is empty, of a cell that is collapsed, of an option that the
/// cell cannot become, or of a direction in which the cell has no neighbour.
pub open spec fn spec_entry_ok<D: Dimensionality>(
    grid: &GridMap<D, CollapsibleTile<D>>,
    items: Seq<PropagateItem<D>>,
    table: &PerOptionData<D>,
    flight: Flight,
    at: int,
    direction: int,
    option: int,
) -> bool {
    let cell = grid.tiles@[at];
    let to = D::Dir::spec_from_idx(direction as nat).spec_march_step(
        &grid.size.spec_pos_from_offset(at as nat),
        &grid.size,
    );
    cell is Some && cell->0.collapsed_option is None && cell->0.ways_to_be_option.spec_possible(option)
        && to is Some ==> cell->0.ways_to_be_option.spec_ways(option, direction) == spec_supporters(
        grid,
        items,
        table,
        flight,
        grid.size.spec_offset(&to->0) as int,
        direction,
        option,
        table.spec_option_count() as int,
    )
}

/// Whether every count of ways of every cell is right.
pub open spec fn spec_support<D: Dimensionality>(
    grid: &GridMap<D, CollapsibleTile<D>>,
    items: Seq<PropagateItem<D>>,
    table: &PerOptionData<D>,
    flight: Flight,
) -> bool {
    forall|at: int, direction: int, option: int|
        0 <= at < grid.tiles@.len() && 0 <= direction < D::Dir::spec_count() && 0 <= option
            < table.spec_option_count() ==> #[trigger] spec_entry_ok(
            grid,
            items,
            table,
            flight,
            at,
            direction,
            option,
        )
}

/// Whether the work list holds every removal once only, and only removals
/// that are due: the cell of an item is there and does not hold the option
/// of the item any more.
pub open spec fn spec_items_due<D: Dimensionality>(
    grid: &GridMap<D, CollapsibleTile<D>>,
    items: Seq<PropagateItem<D>>,
) -> bool {
    &&& forall|a: int, b: int|
        0 <= a < b < items.len() ==> !(grid.size.spec_offset(&(#[trigger] items[a]).position)
            == grid.size.spec_offset(&(#[trigger] items[b]).position) && items[a].to_remove
            == items[b].to_remove)
    &&& forall|k: int|
        0 <= k < items.len() ==> grid.tiles@[grid.size.spec_offset(
            &(#[trigger] items[k]).position,
        ) as int] is Some && !spec_holds(
            grid.tiles@[grid.size.spec_offset(&items[k].position) as int],
            items[k].to_remove as int,
        )
}

/// Whether something may stand beside every option in every direction.
pub open spec fn spec_all_possible<D: Dimensionality>(table: &PerOptionData<D>) -> bool {
    forall|i: int| 0 <= i < table.spec_option_count() ==> #[trigger] table.spec_has_all_neighbours(i)
}

/// The number of supporters lies between zero and the number of options
/// looked at.
pub proof fn lemma_supporters_bounds<D: Dimensionality>(
    grid: &GridMap<D, CollapsibleTile<D>>,
    items: Seq<PropagateItem<D>>,
    table: &PerOptionData<D>,
    flight: Flight,
    at: int,
    direction: int,
    option: int,
    n: int,
)
    requires
        0 <= n,
    ensures
        0 <= spec_supporters(grid, items, table, flight, at, direction, option, n) <= n,
    decreases n,
{
    if n > 0 {
        lemma_supporters_bounds(grid, items, table, flight, at, direction, option, n - 1);
    }
}

/// An option that counts and permits the option beside it is a supporter.
pub proof fn lemma_one_supporter<D: Dimensionality>(
    grid: &GridMap<D, CollapsibleTile<D>>,
    items: Seq<PropagateItem<D>>,
    table: &PerOptionData<D>,
    flight: Flight,
    at: int,
    direction: int,
    option: int,
    n: int,
    a: int,
)
    requires
        0 <= a < n,
        spec_counts(grid, items, flight, at, direction, a),
        table.spec_allows(a, spec_opposite_idx::<D>(direction), option),
    ensures
        spec_supporters(grid, items, table, flight, at, direction, option, n) >= 1,
    decreases n,
{
    if n - 1 == a {
        lemma_supporters_bounds(grid, items, table, flight, at, direction, option, n - 1);
    } else {
        lemma_one_supporter(grid, items, table, flight, at, direction, option, n - 1, a);
    }
}

/// Two options that count and permit the option beside them are two
/// supporters.
pub proof fn lemma_two_supporters<D: Dimensionality>(
    grid: &GridMap<D, CollapsibleTile<D>>,
    items: Seq<PropagateItem<D>>,
    table: &PerOptionData<D>,
    flight: Flight,
    at: int,
    direction: int,
    option: int,
    n: int,
    a: int,
    b: int,
)
    requires
        0 <= a < b < n,
        spec_counts(grid, items, flight, at, direction, a),
        table.spec_allows(a, spec_opposite_idx::<D>(direction), option),
        spec_counts(grid, items, flight, at, direction, b),
        table.spec_allows(b, spec_opposite_idx::<D>(direction), option),
    ensures
        spec_supporters(grid, items, table, flight, at, direction, option, n) >= 2,
    decreases n,
{
    if n - 1 == b {
        lemma_one_supporter(grid, items, table, flight, at, direction, option, n - 1, a);
    } else {
        lemma_two_supporters(grid, items, table, flight, at, direction, option, n - 1, a, b);
    }
}

/// Where there is a supporter, there is an option that counts and permits
/// the option beside it.
pub proof fn lemma_supporter_exists<D: Dimensionality>(
    grid: &GridMap<D, CollapsibleTile<D>>,
    items: Seq<PropagateItem<D>>,
    table: &PerOptionData<D>,
    flight: Flight,
    at: int,
    direction: int,
    option: int,
    n: int,
) -> (i: int)
    requires
        spec_supporters(grid, items, table, flight, at, direction, option, n) > 0,
    ensures
        0 <= i < n,
        spec_counts(grid, items, flight, at, direction, i),
        table.spec_allows(i, spec_opposite_idx::<D>(direction), option),
    decreases n,
{
    if spec_counts(grid, items, flight, at, direction, n - 1) && table.spec_allows(
        n - 1,
        spec_opposite_idx::<D>(direction),
        option,
    ) {
        n - 1
    } else {
        lemma_supporter_exists(grid, items, table, flight, at, direction, option, n - 1)
    }
}

/// Two states in which the same options count at a cell have the same
/// supporters there.
pub proof fn lemma_supporters_same<D: Dimensionality>(
    grid_a: &GridMap<D, CollapsibleTile<D>>,
    items_a: Seq<PropagateItem<D>>,
    flight_a: Flight,
    grid_b: &GridMap<D, CollapsibleTile<D>>,
    items_b: Seq<PropagateItem<D>>,
    flight_b: Flight,
    table: &PerOptionData<D>,
    at: int,
    direction: int,
    option: int,
    n: int,
)
    requires
        forall|i: int|
            0 <= i < n ==> #[trigger] spec_counts(grid_a, items_a, flight_a, at, direction, i)
                == spec_counts(grid_b, items_b, flight_b, at, direction, i),
    ensures
        spec_supporters(grid_a, items_a, table, flight_a, at, direction, option, n)
            == spec_supporters(grid_b, items_b, table, flight_b, at, direction, option, n),
    decreases n,
{
    if n > 0 {
        lemma_supporters_same(
            grid_a,
            items_a,
            flight_a,
            grid_b,
            items_b,
            flight_b,
            table,
            at,
            direction,
            option,
            n - 1,
        );
        assert(spec_counts(grid_a, items_a, flight_a, at, direction, n - 1) == spec_counts(
            grid_b,
            items_b,
            flight_b,
            at,
            direction,
            n - 1,
        ));
    }
}

/// Where one option stops counting at a cell and every other option counts
/// as before, the supporters of an option are one less if the option that
/// stopped counting permitted it, and as many as before if not.
pub proof fn lemma_supporters_without<D: Dimensionality>(
    grid_a: &GridMap<D, CollapsibleTile<D>>,
    items_a: Seq<PropagateItem<D>>,
    flight_a: Flight,
    grid_b: &GridMap<D, CollapsibleTile<D>>,
    items_b: Seq<PropagateItem<D>>,
    flight_b: Flight,
    table: &PerOptionData<D>,
    at: int,
    direction: int,
    option: int,
    gone: int,
    n: int,
)
    requires
        0 <= gone,
        spec_counts(grid_a, items_a, flight_a, at, direction, gone),
        !spec_counts(grid_b, items_b, flight_b, at, direction, gone),
        forall|i: int|
            0 <= i < n && i != gone ==> #[trigger] spec_counts(
                grid_a,
                items_a,
                flight_a,
                at,
                direction,
                i,
            ) == spec_counts(grid_b, items_b, flight_b, at, direction, i),
    ensures
        spec_supporters(grid_b, items_b, table, flight_b, at, direction, option, n)
            == spec_supporters(grid_a, items_a, table, flight_a, at, direction, option, n) - if gone
            < n && table.spec_allows(gone, spec_opposite_idx::<D>(direction), option) {
            1int
        } else {
            0int
        },
    decreases n,
{
    if n > 0 {
        lemma_supporters_without(
            grid_a,
            items_a,
            flight_a,
            grid_b,
            items_b,
            flight_b,
            table,
            at,
            direction,
            option,
            gone,
            n - 1,
        );
        if n - 1 != gone {
            assert(spec_counts(grid_a, items_a, flight_a, at, direction, n - 1) == spec_counts(
                grid_b,
                items_b,
                flight_b,
                at,
                direction,
                n - 1,
            ));
        }
    }
}

/// Whether the list holds the number.
pub open spec fn spec_lists(list: Seq<usize>, value: int) -> bool {
    exists|k: int| 0 <= k < list.len() && #[trigger] list[k] == value
}

/// Number of the first `n` numbers that occur in the list.
pub open spec fn spec_count_listed(list: Seq<usize>, n: int) -> int
    decreases n,
{
    if n <= 0 {
        0
    } else {
        spec_count_listed(list, n - 1) + if spec_lists(list, n - 1) {
            1int
        } else {
            0int
        }
    }
}

/// A list of numbers below `n`, in strictly increasing order, holds as many
/// of the numbers below `n` as it is long.
pub proof fn lemma_count_listed(list: Seq<usize>, n: int)
    requires
        spec_increasing(list),
        0 <= n,
        forall|k: int| 0 <= k < list.len() ==> list[k] < n,
    ensures
        spec_count_listed(list, n) == list.len(),
    decreases list.len(),
{
    if list.len() == 0 {
        lemma_count_listed_none(list, n);
    } else {
        let last = list[list.len() - 1] as int;
        let rest = list.drop_last();
        assert forall|k: int| 0 <= k < rest.len() implies rest[k] < last by {
            assert(list[k] < list[list.len() - 1]);
        }
        lemma_count_listed(rest, last);
        assert forall|v: int| spec_lists(list, v) <==> (v == last || spec_lists(rest, v)) by {
            if spec_lists(list, v) {
                let k = choose|k: int| 0 <= k < list.len() && #[trigger] list[k] == v;
                if k < list.len() - 1 {
                    assert(rest[k] == v);
                }
            }
            if spec_lists(rest, v) {
                let k = choose|k: int| 0 <= k < rest.len() && #[trigger] rest[k] == v;
                assert(list[k] == v);
            }
            if v == last {
                assert(list[list.len() - 1] == v);
            }
        }
        lemma_count_listed_same_below(list, rest, last, last);
        lemma_count_listed_above(list, rest, last, n);
    }
}

/// A list without members holds none of the numbers below `n`.
pub proof fn lemma_count_listed_none(list: Seq<usize>, n: int)
    requires
        list.len() == 0,
    ensures
        spec_count_listed(list, n) == 0,
    decreases n,
{
    if n > 0 {
        lemma_count_listed_none(list, n - 1);
    }
}

/// A list that holds `last` and nothing above it holds one more of the
/// numbers below `n`, for `n` above `last`, than of the numbers below `last`.
pub proof fn lemma_count_listed_above(list: Seq<usize>, rest: Seq<usize>, last: int, n: int)
    requires
        forall|v: int| spec_lists(list, v) <==> (v == last || spec_lists(rest, v)),
        forall|k: int| 0 <= k < rest.len() ==> rest[k] < last,
        0 <= last < n,
    ensures
        spec_count_listed(list, n) == spec_count_listed(list, last) + 1,
    decreases n,
{
    if n - 1 > last {
        lemma_count_listed_above(list, rest, last, n - 1);
        if spec_lists(rest, n - 1) {
            let k = choose|k: int| 0 <= k < rest.len() && #[trigger] rest[k] == n - 1;
            assert(rest[k] < last);
        }
    } else {
        assert(spec_lists(list, last));
    }
}

/// Two lists that hold the same numbers below `n` hold as many of the
/// numbers below `m`, for `m` not above `n`.
pub proof fn lemma_count_listed_same_below(list: Seq<usize>, rest: Seq<usize>, n: int, m: int)
    requires
        forall|v: int| spec_lists(list, v) <==> (v == n || spec_lists(rest, v)),
        0 <= m <= n,
    ensures
        spec_count_listed(list, m) == spec_count_listed(rest, m),
    decreases m,
{
    if m > 0 {
        lemma_count_listed_same_below(list, rest, n, m - 1);
    }
}

/// Where each rule has its mirror image and every option counts at a cell,
/// the supporters of an option there are as many as the options that the
/// option permits beside it in the direction of the cell.
pub proof fn lemma_supporters_of_all<D: Dimensionality>(
    grid: &GridMap<D, CollapsibleTile<D>>,
    items: Seq<PropagateItem<D>>,
    table: &PerOptionData<D>,
    flight: Flight,
    at: int,
    direction: int,
    option: int,
)
    requires
        table.wf(),
        table.spec_symmetric(),
        0 <= direction < D::Dir::spec_count(),
        0 <= option < table.spec_option_count(),
        forall|i: int|
            0 <= i < table.spec_option_count() ==> #[trigger] spec_counts(
                grid,
                items,
                flight,
                at,
                direction,
                i,
            ),
    ensures
        spec_supporters(
            grid,
            items,
            table,
            flight,
            at,
            direction,
            option,
            table.spec_option_count() as int,
        ) == table.spec_enabled(option, direction).len(),
{
    let list = table.spec_enabled(option, direction);
    lemma_supporters_listed(
        grid,
        items,
        table,
        flight,
        at,
        direction,
        option,
        table.spec_option_count() as int,
    );
    assert(spec_increasing(list));
    lemma_count_listed(list, table.spec_option_count() as int);
}

/// Where each rule has its mirror image and every option counts at a cell,
/// the supporters of an option among the first `n` options are those that
/// the option permits beside it in the direction of the cell.
pub proof fn lemma_supporters_listed<D: Dimensionality>(
    grid: &GridMap<D, CollapsibleTile<D>>,
    items: Seq<PropagateItem<D>>,
    table: &PerOptionData<D>,
    flight: Flight,
    at: int,
    direction: int,
    option: int,
    n: int,
)
    requires
        table.wf(),
        table.spec_symmetric(),
        0 <= direction < D::Dir::spec_count(),
        0 <= option < table.spec_option_count(),
        0 <= n <= table.spec_option_count(),
        forall|i: int|
            0 <= i < table.spec_option_count() ==> #[trigger] spec_counts(
                grid,
                items,
                flight,
                at,
                direction,
                i,
            ),
    ensures
        spec_supporters(grid, items, table, flight, at, direction, option, n) == spec_count_listed(
            table.spec_enabled(option, direction),
            n,
        ),
    decreases n,
{
    if n > 0 {
        lemma_supporters_listed(grid, items, table, flight, at, direction, option, n - 1);
        assert(spec_counts(grid, items, flight, at, direction, n - 1));
        lemma_mirror::<D>(table, option, direction, n - 1);
        assert(table.spec_allows(option, direction, n - 1) == spec_lists(
            table.spec_enabled(option, direction),
            n - 1,
        ));
    }
}

/// Where each rule has its mirror image, an option permits another beside
/// it in a direction exactly if the other permits it in the opposite
/// direction.
pub proof fn lemma_mirror<D: Dimensionality>(
    table: &PerOptionData<D>,
    option: int,
    direction: int,
    other: int,
)
    requires
        table.wf(),
        table.spec_symmetric(),
        0 <= direction < D::Dir::spec_count(),
        0 <= option < table.spec_option_count(),
        0 <= other < table.spec_option_count(),
    ensures
        table.spec_allows(option, direction, other) <==> table.spec_allows(
            other,
            spec_opposite_idx::<D>(direction),
            option,
        ),
{
    let dir = D::Dir::spec_from_idx(direction as nat);
    let back = dir.spec_opposite();
    D::Dir::lemma_from_idx(direction as nat);
    dir.lemma_opposite();
    back.lemma_idx();
    back.lemma_opposite();
    let b = back.spec_idx() as int;
    assert(D::Dir::spec_from_idx(b as nat) == back);
    assert(D::Dir::spec_from_idx(b as nat).spec_opposite().spec_idx() == direction);
    if table.spec_allows(other, b, option) {
        assert(table.spec_allows(option, direction, other));
    }
}

/// Whether the account of ways is in order: every count of ways is right,
/// the work list holds what is due, and the item in flight, if there is
/// one, belongs to a cell that does not hold its option any more and is not
/// on the work list a second time.
pub open spec fn spec_tracking<D: Dimensionality>(
    grid: &GridMap<D, CollapsibleTile<D>>,
    items: Seq<PropagateItem<D>>,
    table: &PerOptionData<D>,
    flight: Flight,
) -> bool {
    &&& spec_support(grid, items, table, flight)
    &&& spec_items_due(grid, items)
    &&& flight.at >= 0 ==> {
        &&& flight.at < grid.tiles@.len()
        &&& grid.tiles@[flight.at] is Some
        &&& !spec_holds(grid.tiles@[flight.at], flight.option)
        &&& !spec_pending(items, &grid.size, flight.at, flight.option)
    }
}

/// Taking the last item off the work list puts it in flight: the account
/// stays in order.
pub proof fn lemma_take_off<D: Dimensionality>(
    grid: &GridMap<D, CollapsibleTile<D>>,
    items: Seq<PropagateItem<D>>,
    table: &PerOptionData<D>,
)
    requires
        grid.wf(),
        items.len() > 0,
        spec_tracking(grid, items, table, spec_no_flight()),
        forall|k: int| 0 <= k < items.len() ==> grid.size.spec_valid(&(#[trigger] items[k]).position),
    ensures
        spec_tracking(
            grid,
            items.drop_last(),
            table,
            Flight {
                at: grid.size.spec_offset(&items.last().position) as int,
                option: items.last().to_remove as int,
                done: 0,
            },
        ),
{
    let rest = items.drop_last();
    let item = items.last();
    let last = items.len() - 1;
    let flight = Flight {
        at: grid.size.spec_offset(&item.position) as int,
        option: item.to_remove as int,
        done: 0,
    };
    grid.size.lemma_offset_in_range(&item.position);
    assert forall|at: int, option: int|
        spec_pending(items, &grid.size, at, option) <==> (spec_pending(rest, &grid.size, at, option)
            || (flight.at == at && flight.option == option)) by {
        if spec_pending(items, &grid.size, at, option) {
            let k = choose|k: int|
                0 <= k < items.len() && grid.size.spec_offset(&(#[trigger] items[k]).position) == at
                    && items[k].to_remove == option;
            if k < last {
                assert(rest[k] == items[k]);
            }
        }
        if spec_pending(rest, &grid.size, at, option) {
            let k = choose|k: int|
                0 <= k < rest.len() && grid.size.spec_offset(&(#[trigger] rest[k]).position) == at
                    && rest[k].to_remove == option;
            assert(items[k] == rest[k]);
        }
        if flight.at == at && flight.option == option {
            assert(grid.size.spec_offset(&items[last].position) == at);
        }
    }
    assert forall|at: int, direction: int, option: int|
        0 <= at < grid.tiles@.len() && 0 <= direction < D::Dir::spec_count() && 0 <= option
            < table.spec_option_count() implies #[trigger] spec_entry_ok(
        grid,
        rest,
        table,
        flight,
        at,
        direction,
        option,
    ) by {
        assert(spec_entry_ok(grid, items, table, spec_no_flight(), at, direction, option));
        let to = D::Dir::spec_from_idx(direction as nat).spec_march_step(
            &grid.size.spec_pos_from_offset(at as nat),
            &grid.size,
        );
        if to is Some {
            let to_at = grid.size.spec_offset(&to->0) as int;
            assert forall|i: int| 0 <= i < table.spec_option_count() implies #[trigger] spec_counts(
                grid,
                items,
                spec_no_flight(),
                to_at,
                direction,
                i,
            ) == spec_counts(grid, rest, flight, to_at, direction, i) by {
                assert(spec_pending(items, &grid.size, to_at, i) <==> (spec_pending(
                    rest,
                    &grid.size,
                    to_at,
                    i,
                ) || (flight.at == to_at && flight.option == i)));
            }
            lemma_supporters_same(
                grid,
                items,
                spec_no_flight(),
                grid,
                rest,
                flight,
                table,
                to_at,
                direction,
                option,
                table.spec_option_count() as int,
            );
        }
    }
    assert(spec_items_due(grid, rest)) by {
        assert forall|a: int, b: int| 0 <= a < b < rest.len() implies !(grid.size.spec_offset(
            &(#[trigger] rest[a]).position,
        ) == grid.size.spec_offset(&(#[trigger] rest[b]).position) && rest[a].to_remove
            == rest[b].to_remove) by {
            assert(items[a] == rest[a] && items[b] == rest[b]);
        }
        assert forall|k: int| 0 <= k < rest.len() implies grid.tiles@[grid.size.spec_offset(
            &(#[trigger] rest[k]).position,
        ) as int] is Some && !spec_holds(
            grid.tiles@[grid.size.spec_offset(&rest[k].position) as int],
            rest[k].to_remove as int,
        ) by {
            assert(items[k] == rest[k]);
        }
    }
    assert(!spec_pending(rest, &grid.size, flight.at, flight.option)) by {
        if spec_pending(rest, &grid.size, flight.at, flight.option) {
            let k = choose|k: int|
                0 <= k < rest.len() && grid.size.spec_offset(&(#[trigger] rest[k]).position)
                    == flight.at && rest[k].to_remove == flight.option;
            assert(items[k] == rest[k]);
            assert(k < last);
            assert(grid.size.spec_offset(&items[k].position) == grid.size.spec_offset(
                &items[last].position,
            ));
        }
    }
    assert(grid.tiles@[grid.size.spec_offset(&items[last].position) as int] is Some);
}

/// An item that has been taken into account in every direction has landed:
/// the account is in order without it.
pub proof fn lemma_landed<D: Dimensionality>(
    grid: &GridMap<D, CollapsibleTile<D>>,
    items: Seq<PropagateItem<D>>,
    table: &PerOptionData<D>,
    flight: Flight,
)
    requires
        spec_tracking(grid, items, table, flight),
        flight.done >= D::Dir::spec_count(),
    ensures
        spec_tracking(grid, items, table, spec_no_flight()),
{
    assert forall|at: int, direction: int, option: int|
        0 <= at < grid.tiles@.len() && 0 <= direction < D::Dir::spec_count() && 0 <= option
            < table.spec_option_count() implies #[trigger] spec_entry_ok(
        grid,
        items,
        table,
        spec_no_flight(),
        at,
        direction,
        option,
    ) by {
        assert(spec_entry_ok(grid, items, table, flight, at, direction, option));
        let to = D::Dir::spec_from_idx(direction as nat).spec_march_step(
            &grid.size.spec_pos_from_offset(at as nat),
            &grid.size,
        );
        if to is Some {
            let to_at = grid.size.spec_offset(&to->0) as int;
            lemma_supporters_same(
                grid,
                items,
                flight,
                grid,
                items,
                spec_no_flight(),
                table,
                to_at,
                direction,
                option,
                table.spec_option_count() as int,
            );
        }
    }
}

/// A grid that holds the cells of a grid whose account is in order has its
/// account in order.
pub proof fn lemma_tracking_same_cells<D: Dimensionality>(
    after: &GridMap<D, CollapsibleTile<D>>,
    before: &GridMap<D, CollapsibleTile<D>>,
    items: Seq<PropagateItem<D>>,
    table: &PerOptionData<D>,
    flight: Flight,
)
    requires
        after.size == before.size,
        after.tiles@ == before.tiles@,
        spec_tracking(before, items, table, flight),
    ensures
        spec_tracking(after, items, table, flight),
{
    assert forall|at: int, direction: int, option: int|
        0 <= at < after.tiles@.len() && 0 <= direction < D::Dir::spec_count() && 0 <= option
            < table.spec_option_count() implies #[trigger] spec_entry_ok(
        after,
        items,
        table,
        flight,
        at,
        direction,
        option,
    ) by {
        assert(spec_entry_ok(before, items, table, flight, at, direction, option));
        let to = D::Dir::spec_from_idx(direction as nat).spec_march_step(
            &after.size.spec_pos_from_offset(at as nat),
            &after.size,
        );
        if to is Some {
            lemma_supporters_same(
                before,
                items,
                flight,
                after,
                items,
                flight,
                table,
                after.size.spec_offset(&to->0) as int,
                direction,
                option,
                table.spec_option_count() as int,
            );
        }
    }
}

/// Two valid positions of one offset are the same position, and a position
/// and its neighbour have different offsets.
pub proof fn lemma_offsets_differ<D: Dimensionality>(size: &D::Size, a: D::Pos, b: D::Pos)
    requires
        size.spec_valid(&a),
        size.spec_valid(&b),
    ensures
        size.spec_offset(&a) == size.spec_offset(&b) <==> a == b,
{
    size.lemma_pos_from_offset_of_offset(&a);
    size.lemma_pos_from_offset_of_offset(&b);
}

/// The cell that has the cell of the item in flight as its neighbour in the
/// direction that is taken into account next is not there, or is collapsed:
/// nothing is to be done in that direction, and the account stays in order.
pub proof fn lemma_direction_idle<D: Dimensionality>(
    grid: &GridMap<D, CollapsibleTile<D>>,
    items: Seq<PropagateItem<D>>,
    table: &PerOptionData<D>,
    flight: Flight,
)
    requires
        grid.wf(),
        spec_tracking(grid, items, table, flight),
        0 <= flight.at < grid.tiles@.len(),
        0 <= flight.done < D::Dir::spec_count(),
        match D::Dir::spec_from_idx(flight.done as nat).spec_opposite().spec_march_step(
            &grid.size.spec_pos_from_offset(flight.at as nat),
            &grid.size,
        ) {
            Some(position) => grid.tiles@[grid.size.spec_offset(&position) as int] is None
                || grid.tiles@[grid.size.spec_offset(&position) as int]->0.collapsed_option is Some,
            None => true,
        },
    ensures
        spec_tracking(
            grid,
            items,
            table,
            Flight { at: flight.at, option: flight.option, done: flight.done + 1 },
        ),
{
    let next = Flight { at: flight.at, option: flight.option, done: flight.done + 1 };
    let size = grid.size;
    let m = size.spec_pos_from_offset(flight.at as nat);
    size.lemma_offset_of_pos_from_offset(flight.at as nat);
    assert forall|at: int, direction: int, option: int|
        0 <= at < grid.tiles@.len() && 0 <= direction < D::Dir::spec_count() && 0 <= option
            < table.spec_option_count() implies #[trigger] spec_entry_ok(
        grid,
        items,
        table,
        next,
        at,
        direction,
        option,
    ) by {
        assert(spec_entry_ok(grid, items, table, flight, at, direction, option));
        let dir = D::Dir::spec_from_idx(direction as nat);
        let pos = size.spec_pos_from_offset(at as nat);
        size.lemma_offset_of_pos_from_offset(at as nat);
        let to = dir.spec_march_step(&pos, &size);
        let cell = grid.tiles@[at];
        if to is Some && cell is Some && cell->0.collapsed_option is None {
            dir.lemma_march_step_back(&pos, &size);
            let to_at = size.spec_offset(&to->0) as int;
            if to_at == flight.at && direction == flight.done {
                lemma_offsets_differ::<D>(&size, to->0, m);
                assert(dir.spec_opposite().spec_march_step(&m, &size) == Some(pos));
            }
            lemma_supporters_same(
                grid,
                items,
                flight,
                grid,
                items,
                next,
                table,
                to_at,
                direction,
                option,
                table.spec_option_count() as int,
            );
        }
    }
}

/// The removal of the option in flight has been taken into account at the
/// cell that has its cell as neighbour in the next direction: the account
/// stays in order.
pub proof fn lemma_direction_done<D: Dimensionality>(
    before: &GridMap<D, CollapsibleTile<D>>,
    after: &GridMap<D, CollapsibleTile<D>>,
    items_before: Seq<PropagateItem<D>>,
    items_after: Seq<PropagateItem<D>>,
    table: &PerOptionData<D>,
    flight: Flight,
    changed: D::Pos,
)
    requires
        table.wf(),
        crate::collapse::queue::propagator::spec_cells_wf(before, table),
        crate::collapse::queue::propagator::spec_cells_wf(after, table),
        after.size == before.size,
        after.tiles@.len() == before.tiles@.len(),
        spec_tracking(before, items_before, table, flight),
        0 <= flight.at < before.tiles@.len(),
        0 <= flight.option < table.spec_option_count(),
        0 <= flight.done < D::Dir::spec_count(),
        D::Dir::spec_from_idx(flight.done as nat).spec_opposite().spec_march_step(
            &before.size.spec_pos_from_offset(flight.at as nat),
            &before.size,
        ) == Some(changed),
        before.tiles@[before.size.spec_offset(&changed) as int] is Some,
        after.tiles@[before.size.spec_offset(&changed) as int] is Some,
        before.tiles@[before.size.spec_offset(&changed) as int]->0.collapsed_option is None,
        after.tiles@[before.size.spec_offset(&changed) as int]->0.collapsed_option is None,
        forall|at: int|
            0 <= at < before.tiles@.len() && at != before.size.spec_offset(&changed)
                ==> after.tiles@[at] == before.tiles@[at],
        crate::collapse::queue::propagator::spec_removal_applied(
            &before.tiles@[before.size.spec_offset(&changed) as int]->0,
            &after.tiles@[before.size.spec_offset(&changed) as int]->0,
            table.spec_enabled(flight.option, spec_opposite_idx::<D>(flight.done)),
            flight.done,
            table.spec_option_count() as int,
        ),
        crate::collapse::queue::propagator::spec_removals_listed(
            &before.tiles@[before.size.spec_offset(&changed) as int]->0,
            &after.tiles@[before.size.spec_offset(&changed) as int]->0,
            changed,
            items_before,
            items_after,
            table.spec_option_count() as int,
        ),
        forall|k: int|
            0 <= k < items_after.len() ==> before.size.spec_valid(&(#[trigger] items_after[k]).position)
                && items_after[k].to_remove < table.spec_option_count(),
    ensures
        spec_tracking(
            after,
            items_after,
            table,
            Flight { at: flight.at, option: flight.option, done: flight.done + 1 },
        ),
{
    let next = Flight { at: flight.at, option: flight.option, done: flight.done + 1 };
    let size = before.size;
    let options = table.spec_option_count() as int;
    let m = size.spec_pos_from_offset(flight.at as nat);
    size.lemma_offset_of_pos_from_offset(flight.at as nat);
    let d = flight.done;
    let dir_d = D::Dir::spec_from_idx(d as nat);
    let toward = dir_d.spec_opposite();
    D::Dir::lemma_from_idx(d as nat);
    dir_d.lemma_opposite();
    toward.lemma_march_step_back(&m, &size);
    let n_at = size.spec_offset(&changed) as int;
    size.lemma_offset_in_range(&changed);
    lemma_offsets_differ::<D>(&size, changed, m);
    let cell_b = before.tiles@[n_at]->0;
    let cell_a = after.tiles@[n_at]->0;
    assert(cell_b.wf(table));
    assert(cell_a.wf(table));
    let base = items_before.len() as int;
    assert(items_after.take(base) == items_before);
    // what waits after the step is what waited before and the removals of
    // the changed cell
    assert forall|at: int, i: int|
        0 <= i < options implies (#[trigger] spec_pending(items_after, &size, at, i) <==> (
    spec_pending(items_before, &size, at, i) || (at == n_at && cell_b.ways_to_be_option.spec_possible(
        i,
    ) && !cell_a.ways_to_be_option.spec_possible(i)))) by {
        if spec_pending(items_after, &size, at, i) {
            let k = choose|k: int|
                0 <= k < items_after.len() && size.spec_offset(&(#[trigger] items_after[k]).position)
                    == at && items_after[k].to_remove == i;
            if k < base {
                assert(items_after.take(base)[k] == items_after[k]);
                assert(items_before[k] == items_after[k]);
            } else {
                assert(items_after[k].position == changed);
            }
        }
        if spec_pending(items_before, &size, at, i) {
            let k = choose|k: int|
                0 <= k < items_before.len() && size.spec_offset(
                    &(#[trigger] items_before[k]).position,
                ) == at && items_before[k].to_remove == i;
            assert(items_after.take(base)[k] == items_after[k]);
        }
        if at == n_at && cell_b.ways_to_be_option.spec_possible(i)
            && !cell_a.ways_to_be_option.spec_possible(i) {
            let k = choose|k: int|
                base <= k < items_after.len() && (#[trigger] items_after[k]).to_remove == i;
            assert(items_after[k].position == changed);
        }
    }
    // an option counts at a cell after the step as it counted before, but
    // for the option in flight at its own cell in the direction just done
    assert forall|at: int, e: int, i: int|
        0 <= at < before.tiles@.len() && 0 <= i < options && !(at == flight.at && i == flight.option
            && e == d) implies #[trigger] spec_counts(after, items_after, next, at, e, i)
        == spec_counts(before, items_before, flight, at, e, i) by {
        assert(spec_pending(items_after, &size, at, i) <==> (spec_pending(
            items_before,
            &size,
            at,
            i,
        ) || (at == n_at && cell_b.ways_to_be_option.spec_possible(i)
            && !cell_a.ways_to_be_option.spec_possible(i))));
        if at != n_at {
            assert(after.tiles@[at] == before.tiles@[at]);
        } else {
            if cell_a.ways_to_be_option.spec_possible(i) {
                assert(cell_b.ways_to_be_option.spec_possible(i));
            }
        }
    }
    assert(!spec_counts(after, items_after, next, flight.at, d, flight.option)) by {
        assert(after.tiles@[flight.at] == before.tiles@[flight.at]);
        assert(spec_pending(items_after, &size, flight.at, flight.option) <==> (spec_pending(
            items_before,
            &size,
            flight.at,
            flight.option,
        ) || (flight.at == n_at && cell_b.ways_to_be_option.spec_possible(flight.option)
            && !cell_a.ways_to_be_option.spec_possible(flight.option))));
    }
    assert(spec_counts(before, items_before, flight, flight.at, d, flight.option));
    assert forall|at: int, direction: int, option: int|
        0 <= at < after.tiles@.len() && 0 <= direction < D::Dir::spec_count() && 0 <= option
            < options implies #[trigger] spec_entry_ok(
        after,
        items_after,
        table,
        next,
        at,
        direction,
        option,
    ) by {
        let dir = D::Dir::spec_from_idx(direction as nat);
        D::Dir::lemma_from_idx(direction as nat);
        let pos = size.spec_pos_from_offset(at as nat);
        size.lemma_offset_of_pos_from_offset(at as nat);
        let to = dir.spec_march_step(&pos, &size);
        let cell = after.tiles@[at];
        if cell is Some && cell->0.collapsed_option is None
            && cell->0.ways_to_be_option.spec_possible(option) && to is Some {
            dir.lemma_march_step_back(&pos, &size);
            let to_at = size.spec_offset(&to->0) as int;
            size.lemma_offset_in_range(&to->0);
            lemma_offsets_differ::<D>(&size, to->0, m);
            lemma_offsets_differ::<D>(&size, to->0, changed);
            lemma_offsets_differ::<D>(&size, pos, changed);
            if at == n_at {
                assert(pos == changed);
                assert(cell_b.ways_to_be_option.spec_possible(option));
                assert(spec_entry_ok(before, items_before, table, flight, at, direction, option));
                if direction == d {
                    assert(to->0 == m);
                    lemma_supporters_without(
                        before,
                        items_before,
                        flight,
                        after,
                        items_after,
                        next,
                        table,
                        to_at,
                        direction,
                        option,
                        flight.option,
                        options,
                    );
                    assert(table.spec_allows(flight.option, spec_opposite_idx::<D>(d), option)
                        == spec_lists(
                        table.spec_enabled(flight.option, spec_opposite_idx::<D>(d)),
                        option,
                    ));
                    assert(cell_a.ways_to_be_option.table@[option]@[d]
                        == cell_a.ways_to_be_option.spec_ways(option, d));
                } else {
                    if to->0 == m {
                        crate::direction::lemma_march_step_injective(dir, dir_d, &pos, &size);
                    }
                    lemma_supporters_same(
                        before,
                        items_before,
                        flight,
                        after,
                        items_after,
                        next,
                        table,
                        to_at,
                        direction,
                        option,
                        options,
                    );
                    assert(cell_a.ways_to_be_option.table@[option]@[direction]
                        == cell_b.ways_to_be_option.table@[option]@[direction]);
                }
            } else {
                assert(after.tiles@[at] == before.tiles@[at]);
                assert(spec_entry_ok(before, items_before, table, flight, at, direction, option));
                if to->0 == m && direction == d {
                    assert(toward.spec_march_step(&m, &size) == Some(pos));
                }
                lemma_supporters_same(
                    before,
                    items_before,
                    flight,
                    after,
                    items_after,
                    next,
                    table,
                    to_at,
                    direction,
                    option,
                    options,
                );
            }
        }
    }
    assert(spec_items_due(after, items_after)) by {
        assert forall|k: int| 0 <= k < items_after.len() implies after.tiles@[size.spec_offset(
            &(#[trigger] items_after[k]).position,
        ) as int] is Some && !spec_holds(
            after.tiles@[size.spec_offset(&items_after[k].position) as int],
            items_after[k].to_remove as int,
        ) by {
            if k < base {
                assert(items_after.take(base)[k] == items_after[k]);
                let at = size.spec_offset(&items_before[k].position) as int;
                size.lemma_offset_in_range(&items_before[k].position);
                if at != n_at {
                    assert(after.tiles@[at] == before.tiles@[at]);
                } else {
                    if cell_a.ways_to_be_option.spec_possible(items_before[k].to_remove as int) {
                        assert(cell_b.ways_to_be_option.spec_possible(
                            items_before[k].to_remove as int,
                        ));
                    }
                }
            }
        }
        assert forall|a: int, b: int| 0 <= a < b < items_after.len() implies !(size.spec_offset(
            &(#[trigger] items_after[a]).position,
        ) == size.spec_offset(&(#[trigger] items_after[b]).position) && items_after[a].to_remove
            == items_after[b].to_remove) by {
            if b < base {
                assert(items_after.take(base)[a] == items_after[a]);
                assert(items_after.take(base)[b] == items_after[b]);
            } else if a < base {
                assert(items_after.take(base)[a] == items_after[a]);
                assert(items_after[b].position == changed);
                if size.spec_offset(&items_after[a].position) == n_at {
                    assert(!spec_holds(before.tiles@[n_at], items_before[a].to_remove as int));
                }
            }
        }
    }
    assert(!spec_pending(items_after, &size, flight.at, flight.option)) by {
        assert(spec_pending(items_after, &size, flight.at, flight.option) <==> (spec_pending(
            items_before,
            &size,
            flight.at,
            flight.option,
        ) || (flight.at == n_at && cell_b.ways_to_be_option.spec_possible(flight.option)
            && !cell_a.ways_to_be_option.spec_possible(flight.option))));
    }
    assert(after.tiles@[flight.at] == before.tiles@[flight.at]);
}

/// Whether the cell at the position is cut off from the option on the side
/// of the direction of index `direction`: it has a neighbour there, and no
/// option that counts at the neighbour permits the option beside it.
pub open spec fn spec_cut_off<D: Dimensionality>(
    grid: &GridMap<D, CollapsibleTile<D>>,
    items: Seq<PropagateItem<D>>,
    table: &PerOptionData<D>,
    position: D::Pos,
    direction: int,
    option: int,
) -> bool {
    let to = D::Dir::spec_from_idx(direction as nat).spec_march_step(&position, &grid.size);
    to is Some && spec_supporters(
        grid,
        items,
        table,
        spec_no_flight(),
        grid.size.spec_offset(&to->0) as int,
        direction,
        option,
        table.spec_option_count() as int,
    ) == 0
}

/// Whether the failure of the cell at the position is founded: the cell
/// had no option in the grid `before`, or it could become an option there
/// from which it is cut off now.
pub open spec fn spec_refuted<D: Dimensionality>(
    grid: &GridMap<D, CollapsibleTile<D>>,
    items: Seq<PropagateItem<D>>,
    table: &PerOptionData<D>,
    position: D::Pos,
    before: &GridMap<D, CollapsibleTile<D>>,
) -> bool {
    ||| before.spec_at(position)->0.num_options == 0
    ||| exists|direction: int, option: int|
        0 <= direction < D::Dir::spec_count() && 0 <= option < table.spec_option_count()
            && before.spec_at(position)->0.ways_to_be_option.spec_possible(option) && #[trigger] spec_cut_off(
            grid,
            items,
            table,
            position,
            direction,
            option,
        )
}

/// Where no more options count in one state than in another, there are no
/// more supporters.
pub proof fn lemma_supporters_fewer<D: Dimensionality>(
    grid_a: &GridMap<D, CollapsibleTile<D>>,
    items_a: Seq<PropagateItem<D>>,
    flight_a: Flight,
    grid_b: &GridMap<D, CollapsibleTile<D>>,
    items_b: Seq<PropagateItem<D>>,
    flight_b: Flight,
    table: &PerOptionData<D>,
    at: int,
    direction: int,
    option: int,
    n: int,
)
    requires
        forall|i: int|
            0 <= i < n && #[trigger] spec_counts(grid_b, items_b, flight_b, at, direction, i) ==> spec_counts(
                grid_a,
                items_a,
                flight_a,
                at,
                direction,
                i,
            ),
    ensures
        0 <= spec_supporters(grid_b, items_b, table, flight_b, at, direction, option, n)
            <= spec_supporters(grid_a, items_a, table, flight_a, at, direction, option, n),
    decreases n,
{
    if n > 0 {
        lemma_supporters_fewer(
            grid_a,
            items_a,
            flight_a,
            grid_b,
            items_b,
            flight_b,
            table,
            at,
            direction,
            option,
            n - 1,
        );
        if spec_counts(grid_b, items_b, flight_b, at, direction, n - 1) {
            assert(spec_counts(grid_a, items_a, flight_a, at, direction, n - 1));
        }
    }
}

/// The last way of a cell to be an option goes with the option in flight:
/// once the removal of that option has reached the cell, the cell is cut
/// off from the option.
pub proof fn lemma_cut_off<D: Dimensionality>(
    before: &GridMap<D, CollapsibleTile<D>>,
    items_before: Seq<PropagateItem<D>>,
    after: &GridMap<D, CollapsibleTile<D>>,
    items_after: Seq<PropagateItem<D>>,
    table: &PerOptionData<D>,
    flight: Flight,
    to_update: D::Pos,
    option: int,
)
    requires
        before.wf(),
        spec_tracking(before, items_before, table, flight),
        0 <= flight.done < D::Dir::spec_count(),
        0 <= flight.at,
        0 <= flight.option < table.spec_option_count(),
        before.size == after.size,
        before.tiles@.len() == after.tiles@.len(),
        before.size.spec_valid(&to_update),
        D::Dir::spec_from_idx(flight.done as nat).spec_march_step(&to_update, &before.size) is Some,
        before.size.spec_offset(
            &D::Dir::spec_from_idx(flight.done as nat).spec_march_step(&to_update, &before.size)->0,
        ) == flight.at,
        forall|o: int|
            0 <= o < before.tiles@.len() && o != before.size.spec_offset(&to_update) ==> after.tiles@[o]
                == before.tiles@[o],
        items_before.len() <= items_after.len(),
        items_after.take(items_before.len() as int) == items_before,
        forall|idx: int|
            items_before.len() <= idx < items_after.len() ==> before.size.spec_offset(
                &(#[trigger] items_after[idx]).position,
            ) == before.size.spec_offset(&to_update),
        0 <= option < table.spec_option_count(),
        before.tiles@[before.size.spec_offset(&to_update) as int] is Some,
        before.tiles@[before.size.spec_offset(&to_update) as int]->0.collapsed_option is None,
        before.tiles@[before.size.spec_offset(&to_update) as int]->0.ways_to_be_option.spec_possible(option),
        before.tiles@[before.size.spec_offset(&to_update) as int]->0.ways_to_be_option.spec_ways(
            option,
            flight.done,
        ) == 1,
        table.spec_allows(flight.option, spec_opposite_idx::<D>(flight.done), option),
    ensures
        spec_cut_off(after, items_after, table, to_update, flight.done, option),
{
    let size = before.size;
    let at = size.spec_offset(&to_update) as int;
    let dir = D::Dir::spec_from_idx(flight.done as nat);
    let m = dir.spec_march_step(&to_update, &size)->0;
    size.lemma_offset_in_range(&to_update);
    size.lemma_pos_from_offset_of_offset(&to_update);
    dir.lemma_march_step_back(&to_update, &size);
    lemma_offsets_differ::<D>(&size, m, to_update);
    assert(spec_entry_ok(before, items_before, table, flight, at, flight.done, option));
    let n = table.spec_option_count() as int;
    assert(spec_supporters(before, items_before, table, flight, flight.at, flight.done, option, n) == 1);
    assert(spec_counts(before, items_before, flight, flight.at, flight.done, flight.option));
    assert(!spec_counts(after, items_after, spec_no_flight(), flight.at, flight.done, flight.option)) by {
        assert(after.tiles@[flight.at] == before.tiles@[flight.at]);
        if spec_pending(items_after, &after.size, flight.at, flight.option) {
            let idx = choose|idx: int|
                0 <= idx < items_after.len() && size.spec_offset(&(#[trigger] items_after[idx]).position)
                    == flight.at && items_after[idx].to_remove == flight.option;
            if idx < items_before.len() {
                assert(items_before[idx] == items_after[idx]);
                assert(spec_pending(items_before, &size, flight.at, flight.option));
            }
        }
    }
    assert forall|i: int| 0 <= i < n && i != flight.option implies #[trigger] spec_counts(
        before,
        items_before,
        flight,
        flight.at,
        flight.done,
        i,
    ) == spec_counts(after, items_after, spec_no_flight(), flight.at, flight.done, i) by {
        assert(after.tiles@[flight.at] == before.tiles@[flight.at]);
        if spec_pending(items_before, &size, flight.at, i) {
            let idx = choose|idx: int|
                0 <= idx < items_before.len() && size.spec_offset(&(#[trigger] items_before[idx]).position)
                    == flight.at && items_before[idx].to_remove == i;
            assert(items_after[idx] == items_before[idx]);
            assert(spec_pending(items_after, &after.size, flight.at, i));
        }
        if spec_pending(items_after, &after.size, flight.at, i) {
            let idx = choose|idx: int|
                0 <= idx < items_after.len() && size.spec_offset(&(#[trigger] items_after[idx]).position)
                    == flight.at && items_after[idx].to_remove == i;
            if idx < items_before.len() {
                assert(items_before[idx] == items_after[idx]);
                assert(spec_pending(items_before, &size, flight.at, i));
            }
        }
    }
    lemma_supporters_without(
        before,
        items_before,
        flight,
        after,
        items_after,
        spec_no_flight(),
        table,
        flight.at,
        flight.done,
        option,
        flight.option,
        n,
    );
}

} // verus!
